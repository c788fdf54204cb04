//! Rendering a snapshot as tree-drawing text lines.
//!
//! Every listing is prepared (filtered and sorted) and then emitted one
//! entry per line: the entry's branch connector, its name, and a trailing
//! slash for directories. A directory's own children follow its line,
//! indented by a continuation segment, before the next sibling. The first
//! failure anywhere ends the render; lines already emitted stay.

use vstd::prelude::*;
use vstd::string::StringExecFns;
use crate::node::{
    Node, NodeKind, node_is_dir, is_dir_node, node_size, seq_size, lemma_seq_size_first,
    lemma_node_size_pos, kept,
};
use crate::listing::{prepared, prepare_listing, lemma_prepared_size, lemma_prepared_exact};
use crate::errors::TreeError;

verus! {

/// The connector drawn directly before an entry's name.
pub open spec fn branch_marker(is_last: bool) -> Seq<char> {
    if is_last {
        "└── "@
    } else {
        "├── "@
    }
}

/// The segment appended to the prefix for an entry's descendants: blank
/// below a last entry, a vertical bar below the others.
pub open spec fn continuation_segment(is_last: bool) -> Seq<char> {
    if is_last {
        "    "@
    } else {
        "│   "@
    }
}

/// One rendered line: the accumulated prefix, the connector, the entry's
/// name, and a trailing slash exactly for directories.
pub open spec fn line_for(prefix: Seq<char>, name: Seq<char>, is_dir: bool, is_last: bool) -> Seq<
    char,
> {
    prefix + branch_marker(is_last) + name + (if is_dir {
        "/"@
    } else {
        Seq::<char>::empty()
    })
}

/// What rendering a prepared listing under a given prefix emits: the lines,
/// in order, and the failure message of the first unreadable directory the
/// traversal meets, if any. Once a failure appears, nothing after it is
/// emitted — not the failing directory's contents, not later siblings.
pub open spec fn render_nodes(entries: Seq<Node>, prefix: Seq<char>, ignore_hidden: bool) -> (Seq<
    Seq<char>,
>, Option<Seq<char>>)
    decreases seq_size(entries),
    via render_nodes_decreases
{
    if entries.len() == 0 {
        (Seq::empty(), None)
    } else {
        let n = entries[0];
        let is_last = entries.len() == 1;
        let line = line_for(prefix, n.name@, node_is_dir(n), is_last);
        match n.kind {
            NodeKind::File => {
                let rest = render_nodes(
                    entries.subrange(1, entries.len() as int),
                    prefix,
                    ignore_hidden,
                );
                (seq![line] + rest.0, rest.1)
            },
            NodeKind::Unreadable(m) => (seq![line], Some(m@)),
            NodeKind::Dir(children) => {
                let sub = render_nodes(
                    prepared(children@, ignore_hidden),
                    prefix + continuation_segment(is_last),
                    ignore_hidden,
                );
                if sub.1 is Some {
                    (seq![line] + sub.0, sub.1)
                } else {
                    let rest = render_nodes(
                        entries.subrange(1, entries.len() as int),
                        prefix,
                        ignore_hidden,
                    );
                    (seq![line] + sub.0 + rest.0, rest.1)
                }
            },
        }
    }
}

#[via_fn]
proof fn render_nodes_decreases(entries: Seq<Node>, prefix: Seq<char>, ignore_hidden: bool) {
    if entries.len() > 0 {
        lemma_seq_size_first(entries);
        lemma_node_size_pos(entries[0]);
        match entries[0].kind {
            NodeKind::Dir(children) => {
                lemma_prepared_size(children@, ignore_hidden);
            },
            _ => {},
        }
    }
}

/// The views of a vector of rendered lines.
pub open spec fn lines_view(v: Seq<String>) -> Seq<Seq<char>> {
    v.map_values(|s: String| s@)
}

/// Builds one rendered line.
pub fn render_line(prefix: &str, name: &str, is_dir: bool, is_last: bool) -> (r: String)
    ensures
        r@ == line_for(prefix@, name@, is_dir, is_last),
{
    let mut s = prefix.to_owned();
    if is_last {
        s.append("└── ");
    } else {
        s.append("├── ");
    }
    s.append(name);
    if is_dir {
        s.append("/");
    }
    proof {
        if !is_dir {
            assert(prefix@ + branch_marker(is_last) + name@ + Seq::<char>::empty() =~= prefix@
                + branch_marker(is_last) + name@);
        }
    }
    s
}

/// Builds the prefix that an entry's descendants are rendered under.
pub fn child_prefix(prefix: &str, is_last: bool) -> (r: String)
    ensures
        r@ == prefix@ + continuation_segment(is_last),
{
    let mut s = prefix.to_owned();
    if is_last {
        s.append("    ");
    } else {
        s.append("│   ");
    }
    s
}

/// Renders one prepared listing and everything below it, appending the
/// emitted lines to `out` in traversal order. Returns the error of the
/// first unreadable directory the traversal meets, if any; the lines
/// emitted before the failure stay in `out`.
fn render_level(entries: Vec<Node>, prefix: &str, ignore_hidden: bool, out: &mut Vec<String>) -> (r:
    Result<(), TreeError>)
    ensures
        lines_view(final(out)@) == lines_view(old(out)@) + render_nodes(
            entries@,
            prefix@,
            ignore_hidden,
        ).0,
        (match render_nodes(entries@, prefix@, ignore_hidden).1 {
            Option::None => r is Ok,
            Option::Some(m) => (r matches Result::Err(TreeError::Walkdir(w)) && w@ == m),
        }),
    decreases seq_size(entries@),
{
    let ghost input = entries@;
    let mut entries = entries;
    if entries.len() == 0 {
        proof {
            assert(lines_view(out@) =~= lines_view(out@) + render_nodes(
                input,
                prefix@,
                ignore_hidden,
            ).0);
        }
        return Ok(());
    }
    let first = entries.remove(0);
    let ghost first_g = first;
    proof {
        assert(entries@ =~= input.subrange(1, input.len() as int));
        assert(input[0] == first_g);
    }
    let is_last = entries.len() == 0;
    let is_dir = is_dir_node(&first);
    let line = render_line(prefix, first.name.as_str(), is_dir, is_last);
    let ghost out_before = out@;
    out.push(line);
    proof {
        assert(lines_view(out@) =~= lines_view(out_before).push(
            line_for(prefix@, first_g.name@, node_is_dir(first_g), input.len() == 1),
        ));
    }
    let Node { name: _, kind } = first;
    match kind {
        NodeKind::File => {
            proof {
                lemma_seq_size_first(input);
                lemma_node_size_pos(input[0]);
            }
            let r = render_level(entries, prefix, ignore_hidden, out);
            proof {
                let step = render_nodes(input, prefix@, ignore_hidden);
                let rest = render_nodes(entries@, prefix@, ignore_hidden);
                assert(step.0 =~= seq![
                    line_for(prefix@, first_g.name@, node_is_dir(first_g), input.len() == 1),
                ] + rest.0);
                assert(lines_view(out@) =~= lines_view(out_before) + step.0);
            }
            r
        },
        NodeKind::Unreadable(m) => {
            proof {
                let step = render_nodes(input, prefix@, ignore_hidden);
                assert(step.0 =~= seq![
                    line_for(prefix@, first_g.name@, node_is_dir(first_g), input.len() == 1),
                ]);
                assert(lines_view(out@) =~= lines_view(out_before) + step.0);
            }
            Err(TreeError::Walkdir(m))
        },
        NodeKind::Dir(children) => {
            let ghost children_view = children@;
            let cp = child_prefix(prefix, is_last);
            proof {
                lemma_seq_size_first(input);
                lemma_node_size_pos(input[0]);
                lemma_prepared_size(children_view, ignore_hidden);
                assert(node_size(first_g) == 1 + seq_size(children_view));
            }
            let prepared_children = prepare_listing(children, ignore_hidden);
            let ghost out_with_line = out@;
            let sub = render_level(prepared_children, cp.as_str(), ignore_hidden, out);
            proof {
                let step = render_nodes(input, prefix@, ignore_hidden);
                let below = render_nodes(
                    prepared(children_view, ignore_hidden),
                    prefix@ + continuation_segment(input.len() == 1),
                    ignore_hidden,
                );
                assert(cp@ == prefix@ + continuation_segment(input.len() == 1));
            }
            match sub {
                Err(e) => {
                    proof {
                        let step = render_nodes(input, prefix@, ignore_hidden);
                        let below = render_nodes(
                            prepared(children_view, ignore_hidden),
                            prefix@ + continuation_segment(input.len() == 1),
                            ignore_hidden,
                        );
                        assert(step.0 =~= seq![
                            line_for(
                                prefix@,
                                first_g.name@,
                                node_is_dir(first_g),
                                input.len() == 1,
                            ),
                        ] + below.0);
                        assert(lines_view(out@) =~= lines_view(out_before) + step.0);
                    }
                    Err(e)
                },
                Ok(()) => {
                    let r = render_level(entries, prefix, ignore_hidden, out);
                    proof {
                        let step = render_nodes(input, prefix@, ignore_hidden);
                        let below = render_nodes(
                            prepared(children_view, ignore_hidden),
                            prefix@ + continuation_segment(input.len() == 1),
                            ignore_hidden,
                        );
                        let rest = render_nodes(entries@, prefix@, ignore_hidden);
                        assert(step.0 =~= seq![
                            line_for(
                                prefix@,
                                first_g.name@,
                                node_is_dir(first_g),
                                input.len() == 1,
                            ),
                        ] + below.0 + rest.0);
                        assert(lines_view(out@) =~= lines_view(out_before) + step.0);
                    }
                    r
                },
            }
        },
    }
}

/// What a caller that walks the filesystem itself needs to know about one
/// entry of a prepared listing: its name (to descend into it), whether it
/// is a directory, its rendered line, and the prefix for its descendants.
pub struct ListingItem {
    pub name: String,
    pub is_dir: bool,
    pub line: String,
    pub child_prefix: String,
}

/// Lays out one raw directory listing: prepares it and computes, for each
/// surviving entry in rendering order, its line and the prefix its
/// descendants are rendered under.
pub fn layout_listing(entries: Vec<Node>, prefix: &str, ignore_hidden: bool) -> (r: Vec<
    ListingItem,
>)
    ensures
        r@.len() == prepared(entries@, ignore_hidden).len(),
        forall|i: int|
            0 <= i < r@.len() ==> {
                let p = prepared(entries@, ignore_hidden);
                let it = #[trigger] r@[i];
                it.name@ == p[i].name@ && it.is_dir == node_is_dir(p[i]) && it.line@ == line_for(
                    prefix@,
                    p[i].name@,
                    node_is_dir(p[i]),
                    i == p.len() - 1,
                ) && it.child_prefix@ == prefix@ + continuation_segment(i == p.len() - 1)
            },
{
    let listing = prepare_listing(entries, ignore_hidden);
    let ghost p = listing@;
    let total = listing.len();
    let mut rest = listing;
    let mut out: Vec<ListingItem> = Vec::new();
    while rest.len() > 0
        invariant
            total == p.len(),
            out@.len() + rest@.len() == p.len(),
            rest@ == p.subrange(out@.len() as int, p.len() as int),
            forall|i: int|
                0 <= i < out@.len() ==> {
                    let it = #[trigger] out@[i];
                    it.name@ == p[i].name@ && it.is_dir == node_is_dir(p[i]) && it.line@
                        == line_for(
                        prefix@,
                        p[i].name@,
                        node_is_dir(p[i]),
                        i == p.len() - 1,
                    ) && it.child_prefix@ == prefix@ + continuation_segment(i == p.len() - 1)
                },
        decreases rest@.len(),
    {
        let ghost done = out@.len() as int;
        let n = rest.remove(0);
        proof {
            assert(n == p[done]);
            assert(rest@ =~= p.subrange(done + 1, p.len() as int));
        }
        let is_last = rest.len() == 0;
        let is_dir = is_dir_node(&n);
        let line = render_line(prefix, n.name.as_str(), is_dir, is_last);
        let cp = child_prefix(prefix, is_last);
        out.push(ListingItem { name: n.name, is_dir, line, child_prefix: cp });
    }
    out
}

/// Renders a whole snapshot, appending one line per surviving entry to
/// `out`, in traversal order.
///
/// The root itself gets no line: its children are the top-level entries,
/// rendered under the given starting prefix. A root that is not a
/// directory fails with [`TreeError::InvalidPath`] and emits nothing; a
/// root whose contents cannot be listed fails with [`TreeError::Walkdir`]
/// and emits nothing. Deeper failures keep the lines emitted before them.
pub fn render(root: Node, prefix: &str, ignore_hidden: bool, out: &mut Vec<String>) -> (r: Result<
    (),
    TreeError,
>)
    ensures
        (match root.kind {
            NodeKind::File => (r matches Result::Err(TreeError::InvalidPath) && final(out)@ == old(
                out,
            )@),
            NodeKind::Unreadable(m) => (r matches Result::Err(TreeError::Walkdir(w)) && w@ == m@
                && final(out)@ == old(out)@),
            NodeKind::Dir(children) => {
                let rendered = render_nodes(
                    prepared(children@, ignore_hidden),
                    prefix@,
                    ignore_hidden,
                );
                lines_view(final(out)@) == lines_view(old(out)@) + rendered.0 && (match rendered.1 {
                    Option::None => r is Ok,
                    Option::Some(m) => (r matches Result::Err(TreeError::Walkdir(w)) && w@ == m),
                })
            },
        }),
{
    match root.kind {
        NodeKind::File => Err(TreeError::InvalidPath),
        NodeKind::Unreadable(m) => Err(TreeError::Walkdir(m)),
        NodeKind::Dir(children) => {
            let prepared_children = prepare_listing(children, ignore_hidden);
            render_level(prepared_children, prefix, ignore_hidden, out)
        },
    }
}

/// What the four connector strings are, character by character: a last
/// entry gets the closing elbow and a blank continuation segment below it;
/// every other entry gets the tee and a vertical-bar continuation segment.
pub proof fn lemma_connector_text()
    ensures
        branch_marker(true) =~= seq!['└', '─', '─', ' '],
        branch_marker(false) =~= seq!['├', '─', '─', ' '],
        continuation_segment(true) =~= seq![' ', ' ', ' ', ' '],
        continuation_segment(false) =~= seq!['│', ' ', ' ', ' '],
{
    reveal_strlit("└── ");
    reveal_strlit("├── ");
    reveal_strlit("    ");
    reveal_strlit("│   ");
}

/// `p` is an initial segment of `s`.
pub open spec fn seq_starts_with(s: Seq<char>, p: Seq<char>) -> bool {
    p.len() <= s.len() && s.subrange(0, p.len() as int) == p
}

/// An initial segment of an initial segment is one of the whole.
proof fn lemma_starts_with_weaken(s: Seq<char>, p: Seq<char>, q: Seq<char>)
    requires
        seq_starts_with(s, p + q),
    ensures
        seq_starts_with(s, p),
{
    assert(s.subrange(0, p.len() as int) =~= (s.subrange(0, (p + q).len() as int)).subrange(
        0,
        p.len() as int,
    ));
    assert((p + q).subrange(0, p.len() as int) =~= p);
}

/// A rendered line starts with the prefix it was rendered under.
proof fn lemma_line_starts_with(prefix: Seq<char>, name: Seq<char>, is_dir: bool, is_last: bool)
    ensures
        seq_starts_with(line_for(prefix, name, is_dir, is_last), prefix),
{
    assert(line_for(prefix, name, is_dir, is_last).subrange(0, prefix.len() as int) =~= prefix);
}

/// Prefixes compose across depth: every line a listing emits starts with
/// the listing's own prefix, so the prefix of any line is exactly the
/// concatenation of its ancestors' continuation segments.
pub proof fn lemma_lines_carry_prefix(entries: Seq<Node>, prefix: Seq<char>, ignore_hidden: bool)
    ensures
        forall|k: int|
            0 <= k < render_nodes(entries, prefix, ignore_hidden).0.len() ==> seq_starts_with(
                #[trigger] render_nodes(entries, prefix, ignore_hidden).0[k],
                prefix,
            ),
    decreases seq_size(entries),
{
    if entries.len() == 0 {
    } else {
        let n = entries[0];
        let is_last = entries.len() == 1;
        let line = line_for(prefix, n.name@, node_is_dir(n), is_last);
        let tail = entries.subrange(1, entries.len() as int);
        let lines = render_nodes(entries, prefix, ignore_hidden).0;
        lemma_seq_size_first(entries);
        lemma_node_size_pos(entries[0]);
        lemma_line_starts_with(prefix, n.name@, node_is_dir(n), is_last);
        match n.kind {
            NodeKind::File => {
                lemma_lines_carry_prefix(tail, prefix, ignore_hidden);
                let rest = render_nodes(tail, prefix, ignore_hidden).0;
                assert forall|k: int| 0 <= k < lines.len() implies seq_starts_with(
                    lines[k],
                    prefix,
                ) by {
                    if k > 0 {
                        assert(lines[k] == rest[k - 1]);
                    }
                }
            },
            NodeKind::Unreadable(_) => {
                assert forall|k: int| 0 <= k < lines.len() implies seq_starts_with(
                    lines[k],
                    prefix,
                ) by {
                    assert(lines[k] == line);
                }
            },
            NodeKind::Dir(children) => {
                lemma_prepared_size(children@, ignore_hidden);
                let cont = continuation_segment(is_last);
                let below_entries = prepared(children@, ignore_hidden);
                lemma_lines_carry_prefix(below_entries, prefix + cont, ignore_hidden);
                let sub = render_nodes(below_entries, prefix + cont, ignore_hidden);
                if sub.1 is Some {
                    assert forall|k: int| 0 <= k < lines.len() implies seq_starts_with(
                        lines[k],
                        prefix,
                    ) by {
                        if k > 0 {
                            assert(lines[k] == sub.0[k - 1]);
                            lemma_starts_with_weaken(lines[k], prefix, cont);
                        }
                    }
                } else {
                    lemma_lines_carry_prefix(tail, prefix, ignore_hidden);
                    let rest = render_nodes(tail, prefix, ignore_hidden).0;
                    assert forall|k: int| 0 <= k < lines.len() implies seq_starts_with(
                        lines[k],
                        prefix,
                    ) by {
                        if 0 < k < 1 + sub.0.len() {
                            assert(lines[k] == sub.0[k - 1]);
                            lemma_starts_with_weaken(lines[k], prefix, cont);
                        } else if k >= 1 + sub.0.len() {
                            assert(lines[k] == rest[k - 1 - sub.0.len()]);
                        }
                    }
                }
            },
        }
    }
}

/// A non-empty listing's first line is its first entry's, and the entry is
/// marked as last exactly when it is alone; in particular the closing
/// elbow appears on a listing's single entry and on no other first entry.
pub proof fn lemma_first_line(entries: Seq<Node>, prefix: Seq<char>, ignore_hidden: bool)
    requires
        entries.len() > 0,
    ensures
        render_nodes(entries, prefix, ignore_hidden).0.len() > 0,
        render_nodes(entries, prefix, ignore_hidden).0[0] == line_for(
            prefix,
            entries[0].name@,
            node_is_dir(entries[0]),
            entries.len() == 1,
        ),
{
}

/// A listing of plain files renders to exactly one line per entry, in the
/// listing's order, with no omission and no duplicate; the closing elbow
/// stands on the last line and on no other.
pub proof fn lemma_flat_listing_lines(entries: Seq<Node>, prefix: Seq<char>, ignore_hidden: bool)
    requires
        forall|i: int| 0 <= i < entries.len() ==> (#[trigger] entries[i]).kind is File,
    ensures
        render_nodes(entries, prefix, ignore_hidden).1 is None,
        render_nodes(entries, prefix, ignore_hidden).0.len() == entries.len(),
        forall|k: int|
            0 <= k < entries.len() ==> #[trigger] render_nodes(entries, prefix, ignore_hidden).0[k]
                == line_for(prefix, entries[k].name@, false, k == entries.len() - 1),
    decreases seq_size(entries),
{
    if entries.len() == 0 {
    } else {
        let n = entries[0];
        assert(n.kind is File);
        let tail = entries.subrange(1, entries.len() as int);
        lemma_seq_size_first(entries);
        lemma_node_size_pos(entries[0]);
        lemma_flat_listing_lines(tail, prefix, ignore_hidden);
        let lines = render_nodes(entries, prefix, ignore_hidden).0;
        let rest = render_nodes(tail, prefix, ignore_hidden).0;
        assert forall|k: int| 0 <= k < entries.len() implies #[trigger] lines[k] == line_for(
            prefix,
            entries[k].name@,
            false,
            k == entries.len() - 1,
        ) by {
            if k == 0 {
                assert(!node_is_dir(n));
            } else {
                assert(lines[k] == rest[k - 1]);
                assert(tail[k - 1] == entries[k]);
            }
        }
    }
}

/// Every directory in the subtree that the traversal would visit (the
/// entry itself and, below a readable directory, its children that pass
/// the hidden-name filter) can be listed.
pub open spec fn subtree_listable(n: Node, ignore_hidden: bool) -> bool
    decreases n,
{
    match n.kind {
        NodeKind::File => true,
        NodeKind::Unreadable(_) => false,
        NodeKind::Dir(children) => forall|i: int|
            0 <= i < children@.len() && kept(#[trigger] children@[i], ignore_hidden)
                ==> subtree_listable(children@[i], ignore_hidden),
    }
}

/// A listing's entries are all listable exactly when its first entry and
/// all the later ones are.
proof fn lemma_listable_split(entries: Seq<Node>, ignore_hidden: bool)
    requires
        entries.len() > 0,
    ensures
        (forall|i: int| 0 <= i < entries.len() ==> subtree_listable(#[trigger] entries[i], ignore_hidden))
            <==> (subtree_listable(entries[0], ignore_hidden) && (forall|i: int|
            0 <= i < entries.subrange(1, entries.len() as int).len() ==> subtree_listable(
                #[trigger] entries.subrange(1, entries.len() as int)[i],
                ignore_hidden,
            ))),
{
    let tail = entries.subrange(1, entries.len() as int);
    if subtree_listable(entries[0], ignore_hidden) && (forall|i: int|
        0 <= i < tail.len() ==> subtree_listable(#[trigger] tail[i], ignore_hidden)) {
        assert forall|i: int| 0 <= i < entries.len() implies subtree_listable(
            #[trigger] entries[i],
            ignore_hidden,
        ) by {
            if i > 0 {
                assert(tail[i - 1] == entries[i]);
                assert(subtree_listable(tail[i - 1], ignore_hidden));
            }
        }
    }
    if forall|i: int| 0 <= i < entries.len() ==> subtree_listable(
        #[trigger] entries[i],
        ignore_hidden,
    ) {
        assert forall|i: int| 0 <= i < tail.len() implies subtree_listable(
            #[trigger] tail[i],
            ignore_hidden,
        ) by {
            assert(tail[i] == entries[i + 1]);
        }
    }
}

/// A rendering fails somewhere if and only if the traversal reaches an
/// unreadable directory: it succeeds exactly when every entry of the
/// listing is listable all the way down, the filtered entries not counted.
pub proof fn lemma_succeeds_iff_listable(entries: Seq<Node>, prefix: Seq<char>, ignore_hidden: bool)
    ensures
        render_nodes(entries, prefix, ignore_hidden).1 is None <==> (forall|i: int|
            0 <= i < entries.len() ==> subtree_listable(#[trigger] entries[i], ignore_hidden)),
    decreases seq_size(entries),
{
    broadcast use vstd::seq_lib::group_to_multiset_ensures;

    if entries.len() == 0 {
    } else {
        let n = entries[0];
        let tail = entries.subrange(1, entries.len() as int);
        lemma_seq_size_first(entries);
        lemma_node_size_pos(entries[0]);
        match n.kind {
            NodeKind::File => {
                lemma_succeeds_iff_listable(tail, prefix, ignore_hidden);
                lemma_listable_split(entries, ignore_hidden);
                assert(subtree_listable(entries[0], ignore_hidden));
            },
            NodeKind::Unreadable(_) => {
                assert(!subtree_listable(entries[0], ignore_hidden));
            },
            NodeKind::Dir(children) => {
                lemma_prepared_size(children@, ignore_hidden);
                let cont = continuation_segment(entries.len() == 1);
                let below = prepared(children@, ignore_hidden);
                lemma_succeeds_iff_listable(below, prefix + cont, ignore_hidden);
                lemma_succeeds_iff_listable(tail, prefix, ignore_hidden);
                lemma_prepared_exact(children@, ignore_hidden);
                lemma_listable_split(entries, ignore_hidden);
                // The prepared children are listable exactly when the kept
                // raw children are: each side's entries occur in the other.
                assert((forall|j: int|
                    0 <= j < below.len() ==> subtree_listable(#[trigger] below[j], ignore_hidden))
                    <==> (forall|i: int|
                    0 <= i < children@.len() && kept(#[trigger] children@[i], ignore_hidden)
                        ==> subtree_listable(children@[i], ignore_hidden))) by {
                    if forall|j: int|
                        0 <= j < below.len() ==> subtree_listable(
                            #[trigger] below[j],
                            ignore_hidden,
                        ) {
                        assert forall|i: int|
                            0 <= i < children@.len() && kept(
                                #[trigger] children@[i],
                                ignore_hidden,
                            ) implies subtree_listable(children@[i], ignore_hidden) by {
                            let x = children@[i];
                            assert(children@.contains(x));
                            assert(children@.to_multiset().count(x) > 0);
                            assert(below.to_multiset().count(x) > 0);
                            assert(below.contains(x));
                            let j = choose|j: int| 0 <= j < below.len() && below[j] == x;
                            assert(subtree_listable(below[j], ignore_hidden));
                        }
                    }
                    if forall|i: int|
                        0 <= i < children@.len() && kept(#[trigger] children@[i], ignore_hidden)
                            ==> subtree_listable(children@[i], ignore_hidden) {
                        assert forall|j: int| 0 <= j < below.len() implies subtree_listable(
                            #[trigger] below[j],
                            ignore_hidden,
                        ) by {
                            let x = below[j];
                            assert(below.contains(x));
                            assert(below.to_multiset().count(x) > 0);
                            assert(kept(x, ignore_hidden) && children@.to_multiset().count(x) > 0);
                            assert(children@.contains(x));
                            let i = choose|i: int| 0 <= i < children@.len() && children@[i] == x;
                            assert(subtree_listable(children@[i], ignore_hidden));
                        }
                    }
                }
                assert(subtree_listable(entries[0], ignore_hidden) <==> (forall|j: int|
                    0 <= j < below.len() ==> subtree_listable(#[trigger] below[j], ignore_hidden)));
            },
        }
    }
}

} // verus!
