//! Sorting statements into the canonical order of the language's grammar.
//!
//! The formatter runs while a file is being edited, so it only reorders lines that are almost
//! certain to be on screen together: the statements inside a `leaf` or `leaf-list` block.
//! Comments and blank lines keep their positions; statements move among the positions that
//! statements hold.
use vstd::prelude::*;

use crate::comments::{lemma_swap_comments, nodes_comments};
use crate::formatting::same_blank_lines;
use crate::node::Node;
use crate::text::str_equal;

verus! {

/// Rank of a statement keyword in the canonical order of a `leaf` or `leaf-list` block;
/// keywords outside that order come last
pub open spec fn leaf_rank(keyword: Seq<char>) -> u8 {
    if keyword == "when"@ {
        1
    } else if keyword == "if-feature"@ {
        2
    } else if keyword == "type"@ {
        3
    } else if keyword == "units"@ {
        4
    } else if keyword == "must"@ {
        5
    } else if keyword == "default"@ {
        6
    } else if keyword == "config"@ {
        7
    } else if keyword == "min-elements"@ {
        8
    } else if keyword == "max-elements"@ {
        9
    } else if keyword == "ordered-by"@ {
        10
    } else if keyword == "mandatory"@ {
        11
    } else if keyword == "status"@ {
        12
    } else if keyword == "description"@ {
        13
    } else if keyword == "reference"@ {
        14
    } else {
        u8::MAX
    }
}

/// The rank of a node: that of its keyword for a statement, last for anything else
pub open spec fn node_rank(node: Node) -> u8 {
    match node {
        Node::Statement(st) => leaf_rank(st.keyword.spec_text()),
        _ => u8::MAX,
    }
}

/// Whether the statements of a block with this keyword are put in canonical order
pub open spec fn sorts_children(parent: Option<Seq<char>>) -> bool {
    parent == Some("leaf"@) || parent == Some("leaf-list"@)
}

/// The statements of `s` stand in order of rank
pub open spec fn statements_in_rank_order(s: Seq<Node>) -> bool {
    forall|i: int, j: int|
        0 <= i < j < s.len() && s[i] is Statement && s[j] is Statement ==> node_rank(s[i])
            <= node_rank(s[j])
}

/// `new[i]` is `old[perm[i]]`, and `perm` is a permutation of the positions
#[verifier::opaque]
pub open spec fn permuted_by(old: Seq<Node>, new: Seq<Node>, perm: Seq<int>) -> bool {
    &&& old.len() == new.len() && perm.len() == new.len()
    &&& forall|i: int| 0 <= i < perm.len() ==> 0 <= #[trigger] perm[i] < perm.len()
    &&& forall|i: int, j: int| 0 <= i < j < perm.len() ==> perm[i] != perm[j]
    &&& forall|i: int| 0 <= i < new.len() ==> #[trigger] new[i] == old[perm[i]]
}

/// `new` is `old` with statements moved among the positions that statements hold: everything
/// else stays where it is
pub open spec fn statements_permuted(old: Seq<Node>, new: Seq<Node>) -> bool {
    &&& same_blank_lines(old, new)
    &&& forall|i: int| 0 <= i < old.len() ==> (#[trigger] old[i] is Statement <==> new[i] is Statement)
    &&& forall|i: int| 0 <= i < old.len() && !(old[i] is Statement) ==> #[trigger] new[i] == old[i]
    &&& exists|perm: Seq<int>| permuted_by(old, new, perm)
}

/// The statement layout is the same: blank lines, comments and statements stand where they
/// stood, and the nodes that are not statements are unchanged
#[verifier::opaque]
pub open spec fn same_layout(old: Seq<Node>, new: Seq<Node>) -> bool {
    &&& same_blank_lines(old, new)
    &&& forall|i: int| 0 <= i < old.len() ==> (#[trigger] old[i] is Statement <==> new[i] is Statement)
    &&& forall|i: int| 0 <= i < old.len() && !(old[i] is Statement) ==> #[trigger] new[i] == old[i]
}

/// Rank of a node in the canonical order of a `leaf` or `leaf-list` block
pub fn get_order_for(node: &Node) -> (r: u8)
    ensures
        r == node_rank(*node),
{
    match node {
        Node::Statement(st) => {
            let k = st.keyword.text();
            if str_equal(k, "when") {
                1
            } else if str_equal(k, "if-feature") {
                2
            } else if str_equal(k, "type") {
                3
            } else if str_equal(k, "units") {
                4
            } else if str_equal(k, "must") {
                5
            } else if str_equal(k, "default") {
                6
            } else if str_equal(k, "config") {
                7
            } else if str_equal(k, "min-elements") {
                8
            } else if str_equal(k, "max-elements") {
                9
            } else if str_equal(k, "ordered-by") {
                10
            } else if str_equal(k, "mandatory") {
                11
            } else if str_equal(k, "status") {
                12
            } else if str_equal(k, "description") {
                13
            } else if str_equal(k, "reference") {
                14
            } else {
                u8::MAX
            }
        },
        _ => u8::MAX,
    }
}

/// Checks whether the statements of the list stand in canonical order; comments and blank
/// lines are not looked at
pub fn is_sorted(statements: &Vec<Node>) -> (r: bool)
    ensures
        r == statements_in_rank_order(statements@),
{
    let ghost s = statements@;
    let mut previous: Option<u8> = None;
    let mut i: usize = 0;
    while i < statements.len()
        invariant
            s == statements@,
            i <= s.len(),
            ranked_before(s, i as int),
            previous is None ==> forall|k: int| 0 <= k < i ==> !(#[trigger] s[k] is Statement),
            previous matches Some(p) ==> forall|k: int|
                0 <= k < i && s[k] is Statement ==> node_rank(#[trigger] s[k]) <= p,
            previous matches Some(p) ==> exists|k: int|
                0 <= k < i && s[k] is Statement && node_rank(#[trigger] s[k]) == p,
        decreases s.len() - i,
    {
        if let Node::Statement(_) = &statements[i] {
            let rank = get_order_for(&statements[i]);
            match previous {
                Some(p) => {
                    if rank < p {
                        proof {
                            let k = choose|k: int|
                                0 <= k < i && s[k] is Statement && node_rank(#[trigger] s[k]) == p;
                            assert(!(node_rank(s[k]) <= node_rank(s[i as int])));
                        }
                        return false;
                    }
                },
                None => {},
            }
            previous = Some(rank);
        }
        i = i + 1;
    }
    true
}

/// Swaps the nodes at `p` and `q`
fn swap_nodes(v: &mut Vec<Node>, p: usize, q: usize)
    requires
        p < q < old(v)@.len(),
    ensures
        final(v)@ == old(v)@.update(p as int, old(v)@[q as int]).update(q as int, old(v)@[p as int]),
{
    let b = v.remove(q);
    let a = v.remove(p);
    v.insert(p, b);
    v.insert(q, a);
    proof {
        assert(v@ =~= old(v)@.update(p as int, old(v)@[q as int]).update(q as int, old(v)@[p as int]));
    }
}

/// Whether the statements of `s` before position `end` stand in order of rank
pub open spec fn ranked_before(s: Seq<Node>, end: int) -> bool {
    forall|i: int, j: int|
        0 <= i < j < end && s[i] is Statement && s[j] is Statement ==> node_rank(s[i]) <= node_rank(
            s[j],
        )
}

proof fn lemma_identity_permutation(s: Seq<Node>) -> (perm: Seq<int>)
    ensures
        permuted_by(s, s, perm),
        same_layout(s, s),
        perm.len() == s.len(),
        forall|i: int| 0 <= i < s.len() ==> perm[i] == i,
{
    reveal(permuted_by);
    reveal(same_layout);
    let perm = Seq::new(s.len(), |i: int| i);
    perm
}

proof fn lemma_swap_keeps_layout(orig: Seq<Node>, s: Seq<Node>, p: int, q: int)
    requires
        same_layout(orig, s),
        0 <= p < q < s.len(),
        s[p] is Statement,
        s[q] is Statement,
    ensures
        same_layout(orig, s.update(p, s[q]).update(q, s[p])),
{
    reveal(same_layout);
    let t = s.update(p, s[q]).update(q, s[p]);
    assert forall|i: int| 0 <= i < orig.len() implies (#[trigger] orig[i] is EmptyLine <==> t[i] is EmptyLine) by {
        assert(orig[i] is EmptyLine <==> s[i] is EmptyLine);
        assert(orig[i] is Statement <==> s[i] is Statement);
    }
    assert forall|i: int| 0 <= i < orig.len() implies (#[trigger] orig[i] is Statement <==> t[i] is Statement) by {
        assert(orig[i] is Statement <==> s[i] is Statement);
    }
    assert forall|i: int| 0 <= i < orig.len() && !(orig[i] is Statement) implies #[trigger] t[i] == orig[i] by {
        assert(orig[i] is Statement <==> s[i] is Statement);
    }
}

proof fn lemma_swap_keeps_permutation(orig: Seq<Node>, s: Seq<Node>, perm: Seq<int>, p: int, q: int)
    requires
        permuted_by(orig, s, perm),
        0 <= p < q < s.len(),
    ensures
        permuted_by(orig, s.update(p, s[q]).update(q, s[p]), perm.update(p, perm[q]).update(q, perm[p])),
{
    reveal(permuted_by);
    let t = s.update(p, s[q]).update(q, s[p]);
    let pt = perm.update(p, perm[q]).update(q, perm[p]);
    assert forall|i: int, j: int| 0 <= i < j < pt.len() implies pt[i] != pt[j] by {
        let a = if i == p { q } else if i == q { p } else { i };
        let b = if j == p { q } else if j == q { p } else { j };
        assert(pt[i] == perm[a]);
        assert(pt[j] == perm[b]);
        if a < b {
            assert(perm[a] != perm[b]);
        } else {
            assert(perm[b] != perm[a]);
        }
    }
    assert forall|i: int| 0 <= i < t.len() implies #[trigger] t[i] == orig[pt[i]] by {
        if i == p {
            assert(t[i] == s[q]);
        } else if i == q {
            assert(t[i] == s[p]);
        } else {
            assert(t[i] == s[i]);
        }
    }
    assert forall|i: int| 0 <= i < pt.len() implies 0 <= #[trigger] pt[i] < pt.len() by {
        if i == p {
            assert(pt[i] == perm[q]);
        } else if i == q {
            assert(pt[i] == perm[p]);
        } else {
            assert(pt[i] == perm[i]);
        }
    }
}

/// Statements of equal rank keep their original order: `perm` gives where each came from
pub open spec fn equal_ranks_in_order(s: Seq<Node>, perm: Seq<int>) -> bool {
    forall|i: int, j: int|
        0 <= i < j < s.len() && s[i] is Statement && s[j] is Statement && node_rank(s[i])
            == node_rank(s[j]) ==> perm[i] < perm[j]
}

proof fn lemma_swap_keeps_stability(s: Seq<Node>, perm: Seq<int>, p: int, q: int)
    requires
        equal_ranks_in_order(s, perm),
        perm.len() == s.len(),
        0 <= p < q < s.len(),
        s[p] is Statement,
        s[q] is Statement,
        node_rank(s[p]) > node_rank(s[q]),
        forall|k: int| p < k < q ==> !(#[trigger] s[k] is Statement),
    ensures
        equal_ranks_in_order(
            s.update(p, s[q]).update(q, s[p]),
            perm.update(p, perm[q]).update(q, perm[p]),
        ),
{
    let t = s.update(p, s[q]).update(q, s[p]);
    let pt = perm.update(p, perm[q]).update(q, perm[p]);
    assert forall|i: int, j: int|
        0 <= i < j < t.len() && t[i] is Statement && t[j] is Statement && node_rank(t[i])
            == node_rank(t[j]) implies pt[i] < pt[j] by {
        let a = if i == p {
            q
        } else if i == q {
            p
        } else {
            i
        };
        let b = if j == p {
            q
        } else if j == q {
            p
        } else {
            j
        };
        assert(t[i] == s[a] && pt[i] == perm[a]);
        assert(t[j] == s[b] && pt[j] == perm[b]);
        if !(i == p && j == q) {
            assert(a < b);
        }
    }
}

/// While the statement at `cur` moves left: the statements up to `q` other than it are in order,
/// and those after it up to `q` outrank it
pub open spec fn inserting(s: Seq<Node>, cur: int, q: int) -> bool {
    &&& forall|i: int, j: int|
        0 <= i < j <= q && i != cur && j != cur && s[i] is Statement && s[j] is Statement
            ==> node_rank(s[i]) <= node_rank(s[j])
    &&& forall|j: int| cur < j <= q && s[j] is Statement ==> node_rank(s[cur]) < node_rank(s[j])
}

/// Sorts the statements of a list stably into canonical order, for the blocks where that is
/// done; comments and blank lines keep their positions
pub fn sort_statements(parent_node_name: Option<&str>, statements: &mut Vec<Node>)
    ensures
        statements_permuted(old(statements)@, final(statements)@),
        nodes_comments(final(statements)@) == nodes_comments(old(statements)@),
        sorts_children(
            match parent_node_name {
                Some(p) => Some(p@),
                None => None,
            },
        ) ==> statements_in_rank_order(final(statements)@),
        !sorts_children(
            match parent_node_name {
                Some(p) => Some(p@),
                None => None,
            },
        ) ==> final(statements)@ == old(statements)@,
        exists|perm: Seq<int>|
            permuted_by(old(statements)@, final(statements)@, perm) && equal_ranks_in_order(
                final(statements)@,
                perm,
            ),
{
    let ghost mut perm = lemma_identity_permutation(statements@);
    proof {
        assert(equal_ranks_in_order(statements@, perm));
    }
    let eligible = match parent_node_name {
        Some(p) => str_equal(p, "leaf") || str_equal(p, "leaf-list"),
        None => false,
    };
    if !eligible {
        proof {
            reveal(same_layout);
            assert(permuted_by(statements@, statements@, perm));
            assert(equal_ranks_in_order(statements@, perm));
        }
        return;
    }
    let ghost orig = statements@;
    let n = statements.len();
    let mut q: usize = 0;
    while q < n
        invariant
            n == statements@.len(),
            q <= n,
            same_layout(orig, statements@),
            permuted_by(orig, statements@, perm),
            nodes_comments(statements@) == nodes_comments(orig),
            equal_ranks_in_order(statements@, perm),
            perm.len() == statements@.len(),
            ranked_before(statements@, q as int),
        decreases n - q,
    {
        if let Node::Statement(_) = &statements[q] {
            // Moves the statement at `q` left past every statement of a higher rank
            let mut cur: usize = q;
            loop
                invariant_except_break
                    statements@[cur as int] is Statement,
                    inserting(statements@, cur as int, q as int),
                invariant
                    n == statements@.len(),
                    cur <= q < n,
                    same_layout(orig, statements@),
                    permuted_by(orig, statements@, perm),
                    nodes_comments(statements@) == nodes_comments(orig),
                    equal_ranks_in_order(statements@, perm),
                    perm.len() == statements@.len(),
                ensures
                    ranked_before(statements@, q + 1),
                decreases cur,
            {
                // The nearest statement before `cur`
                let mut p: usize = cur;
                let mut found = false;
                while p > 0 && !found
                    invariant
                        p <= cur,
                        n == statements@.len(),
                        cur < n,
                        found ==> p < cur && statements@[p as int] is Statement,
                        !found && p < cur ==> !(statements@[p as int] is Statement),
                        forall|k: int| p < k < cur ==> !(#[trigger] statements@[k] is Statement),
                    decreases p + if found { 0int } else { 1int },
                {
                    p = p - 1;
                    if let Node::Statement(_) = &statements[p] {
                        found = true;
                    }
                }
                if !found || get_order_for(&statements[p]) <= get_order_for(&statements[cur]) {
                    proof {
                        let s = statements@;
                        assert forall|i: int, j: int|
                            0 <= i < j < q + 1 && s[i] is Statement && s[j] is Statement implies node_rank(s[i])
                            <= node_rank(s[j]) by {
                            if j == cur && i < p {
                                assert(node_rank(s[i]) <= node_rank(s[p as int]));
                            }
                            if j == cur && !found {
                                assert(!(s[i] is Statement) || i >= cur);
                            }
                        }
                    }
                    break;
                }
                let ghost before = statements@;
                swap_nodes(statements, p, cur);
                proof {
                    lemma_swap_keeps_layout(orig, before, p as int, cur as int);
                    lemma_swap_keeps_permutation(orig, before, perm, p as int, cur as int);
                    lemma_swap_comments(before, p as int, cur as int);
                    lemma_swap_keeps_stability(before, perm, p as int, cur as int);
                    perm = perm.update(p as int, perm[cur as int]).update(cur as int, perm[p as int]);
                    let s = statements@;
                    assert forall|j: int| p < j <= q && s[j] is Statement implies node_rank(s[p as int]) < node_rank(s[j]) by {
                        if j == cur {
                            assert(s[j] == before[p as int]);
                        } else {
                            assert(s[j] == before[j]);
                        }
                    }
                    assert forall|i: int, j: int|
                        0 <= i < j <= q && i != p && j != p && s[i] is Statement && s[j] is Statement
                            implies node_rank(s[i]) <= node_rank(s[j]) by {
                        if j == cur {
                            assert(s[j] == before[p as int]);
                            assert(s[i] == before[i]);
                        } else if i == cur {
                            assert(s[i] == before[p as int]);
                            assert(s[j] == before[j]);
                        } else {
                            assert(s[i] == before[i]);
                            assert(s[j] == before[j]);
                        }
                    }
                }
                cur = p;
            }
        }
        q = q + 1;
    }
    proof {
        reveal(same_layout);
        assert(permuted_by(orig, statements@, perm));
        assert(equal_ranks_in_order(statements@, perm));
    }
}

} // verus!
