use vstd::prelude::*;
use crate::root_map::keys_unique;
use crate::slow_lmd_ghost::{
    add_vote, attest, best_child, best_upto, contributes, descend, find_head_of, kids_of,
    lemma_entry_le_total, score, score_upto, total, votes_upto, with_child, ForkChoiceView,
    children_sorted, edges_after, is_insert_pos, lemma_insert_root, sorted_roots,
};
use crate::store::{ancestor_at, slot_bound, walk};
use crate::types::{root_lt, epoch_of, BeaconBlock, BeaconState, Error, Hash256};

verus! {

/// The attestation index after validator `v` attests to each root of `ts` in turn.
pub open spec fn attest_all(
    blocks: Map<Hash256, BeaconBlock>,
    targets: Map<u64, Hash256>,
    v: u64,
    ts: Seq<Hash256>,
) -> Result<Map<u64, Hash256>, Error>
    decreases ts.len(),
{
    if ts.len() == 0 {
        Ok(targets)
    } else {
        match attest_all(blocks, targets, v, ts.drop_last()) {
            Err(e) => Err(e),
            Ok(m) => attest(blocks, m, v, ts.last()),
        }
    }
}

proof fn lemma_attest_all(
    blocks: Map<Hash256, BeaconBlock>,
    targets: Map<u64, Hash256>,
    v: u64,
    ts: Seq<Hash256>,
) -> (j: int)
    requires
        !targets.contains_key(v),
        ts.len() > 0,
        forall|i: int| 0 <= i < ts.len() ==> blocks.contains_key(#[trigger] ts[i]),
    ensures
        0 <= j < ts.len(),
        attest_all(blocks, targets, v, ts) == Ok::<Map<u64, Hash256>, Error>(targets.insert(v, ts[j])),
        forall|i: int| 0 <= i < ts.len() ==> blocks[#[trigger] ts[i]].slot <= blocks[ts[j]].slot,
        forall|i: int| 0 <= i < j ==> blocks[#[trigger] ts[i]].slot < blocks[ts[j]].slot,
    decreases ts.len(),
{
    let d = ts.drop_last();
    let n = ts.len() - 1;
    if n == 0 {
        0
    } else {
        assert forall|i: int| 0 <= i < d.len() implies blocks.contains_key(#[trigger] d[i]) by {
            assert(d[i] == ts[i]);
        }
        let jd = lemma_attest_all(blocks, targets, v, d);
        let m = targets.insert(v, d[jd]);
        let t = ts[n];
        assert(m[v] == ts[jd]);
        let j = if m[v] == t {
            assert(m.insert(v, ts[jd]) =~= m);
            jd
        } else if blocks[m[v]].slot < blocks[t].slot {
            assert(m.insert(v, t) =~= targets.insert(v, ts[n]));
            n
        } else {
            jd
        };
        assert forall|i: int| 0 <= i < ts.len() implies blocks[#[trigger] ts[i]].slot <= blocks[ts[j]].slot by {
            if i < n {
                assert(d[i] == ts[i]);
            }
        }
        assert forall|i: int| 0 <= i < j implies blocks[#[trigger] ts[i]].slot < blocks[ts[j]].slot by {
            if i < n {
                assert(d[i] == ts[i]);
            }
        }
        j
    }
}

/// A validator's stored target is, after any sequence of its attestations to stored blocks,
/// the root with the greatest slot among those presented; among roots of that slot, the
/// one presented first. No other validator's entry changes.
pub proof fn attestation_keeps_greatest_slot(
    blocks: Map<Hash256, BeaconBlock>,
    targets: Map<u64, Hash256>,
    v: u64,
    ts: Seq<Hash256>,
)
    requires
        !targets.contains_key(v),
        ts.len() > 0,
        forall|i: int| 0 <= i < ts.len() ==> blocks.contains_key(#[trigger] ts[i]),
    ensures
        exists|j: int|
            0 <= j < ts.len() && attest_all(blocks, targets, v, ts) == Ok::<Map<u64, Hash256>, Error>(
                targets.insert(v, ts[j]),
            ) && (forall|i: int| 0 <= i < ts.len() ==> blocks[#[trigger] ts[i]].slot <= blocks[ts[j]].slot)
                && (forall|i: int| 0 <= i < j ==> blocks[#[trigger] ts[i]].slot < blocks[ts[j]].slot),
{
    let j = lemma_attest_all(blocks, targets, v, ts);
    assert(0 <= j < ts.len());
}

/// The head depends on the engine's contents and the root alone, so two runs on the same
/// contents give the same result.
pub proof fn find_head_is_deterministic(g1: ForkChoiceView, g2: ForkChoiceView, root: Hash256)
    requires
        g1 == g2,
    ensures
        find_head_of(g1, root) == find_head_of(g2, root),
{
}

/// `p` is a path of the child index: each root after the first is a known child of the one
/// before it.
pub open spec fn is_path(children: Map<Hash256, Seq<Hash256>>, p: Seq<Hash256>) -> bool {
    &&& p.len() >= 1
    &&& forall|i: int| 0 <= i < p.len() - 1 ==> #[trigger] kids_of(children, p[i]).contains(p[i + 1])
}

/// `b` is `a` or one of its descendants in the child index.
pub open spec fn is_descendant(children: Map<Hash256, Seq<Hash256>>, a: Hash256, b: Hash256) -> bool {
    exists|p: Seq<Hash256>| #[trigger] is_path(children, p) && p[0] == a && p.last() == b
}

proof fn lemma_descendant_step(children: Map<Hash256, Seq<Hash256>>, a: Hash256, c: Hash256, b: Hash256)
    requires
        kids_of(children, a).contains(c),
        is_descendant(children, c, b),
    ensures
        is_descendant(children, a, b),
{
    let p = choose|p: Seq<Hash256>| #[trigger] is_path(children, p) && p[0] == c && p.last() == b;
    let q = seq![a] + p;
    assert forall|i: int| 0 <= i < q.len() - 1 implies #[trigger] kids_of(children, q[i]).contains(q[i + 1]) by {
        if i > 0 {
            assert(q[i] == p[i - 1] && q[i + 1] == p[i]);
            assert(kids_of(children, p[i - 1]).contains(p[i - 1 + 1]));
        }
    }
    assert(is_path(children, q));
    assert(q.last() == b);
}

proof fn lemma_descendant_refl(children: Map<Hash256, Seq<Hash256>>, a: Hash256)
    ensures
        is_descendant(children, a, a),
{
    let q = seq![a];
    assert(is_path(children, q));
}

proof fn lemma_best_is_kid(
    blocks: Map<Hash256, BeaconBlock>,
    votes: Seq<(Hash256, nat)>,
    kids: Seq<Hash256>,
    k: nat,
)
    requires
        k <= kids.len(),
    ensures
        best_upto(blocks, votes, kids, k) matches Ok((Some(c), _)) ==> kids.contains(c),
    decreases k,
{
    if k > 0 {
        lemma_best_is_kid(blocks, votes, kids, (k - 1) as nat);
    }
}

proof fn lemma_descend_reaches(
    blocks: Map<Hash256, BeaconBlock>,
    votes: Seq<(Hash256, nat)>,
    children: Map<Hash256, Seq<Hash256>>,
    head: Hash256,
    fuel: nat,
)
    ensures
        descend(blocks, votes, children, head, fuel) matches Ok(h) ==> is_descendant(children, head, h),
    decreases fuel,
{
    if let Ok(h) = descend(blocks, votes, children, head, fuel) {
        let kids = kids_of(children, head);
        lemma_best_is_kid(blocks, votes, kids, kids.len());
        match best_child(blocks, votes, children, head) {
            Ok((Some(c), _)) => {
                lemma_descend_reaches(blocks, votes, children, c, (fuel - 1) as nat);
                lemma_descendant_step(children, head, c, h);
            },
            _ => {
                lemma_descendant_refl(children, head);
            },
        }
    }
}

/// The head that fork choice picks is the root it starts from or one of its descendants.
pub proof fn head_descends_from_root(g: ForkChoiceView, root: Hash256)
    ensures
        find_head_of(g, root) matches Ok(h) ==> is_descendant(g.children, root, h),
{
    if let Ok(h) = find_head_of(g, root) {
        let votes = crate::slow_lmd_ghost::latest_votes(g.states, g.targets, g.blocks[root].state_root, g.blocks[root].slot)->Ok_0;
        lemma_descend_reaches(g.blocks, votes, g.children, root, g.edges);
    }
}

proof fn lemma_insert_pos_exists(s: Seq<Hash256>, c: Hash256, k: int) -> (i: int)
    requires
        sorted_roots(s),
        !s.contains(c),
        0 <= k <= s.len(),
        forall|j: int| 0 <= j < k ==> root_lt(#[trigger] s[j], c),
    ensures
        is_insert_pos(s, c, i),
    decreases s.len() - k,
{
    if k == s.len() {
        k
    } else if root_lt(c, s[k]) {
        assert forall|j: int| k <= j < s.len() implies root_lt(c, #[trigger] s[j]) by {
            if j > k {
                assert(root_lt(s[k], s[j]));
            }
        }
        k
    } else {
        assert(s[k] != c);
        lemma_insert_pos_exists(s, c, k + 1)
    }
}

/// Recording a child keeps every child list in root order, adds exactly that child, and
/// adds `p` to the parents.
pub proof fn lemma_with_child(children: Map<Hash256, Seq<Hash256>>, p: Hash256, c: Hash256)
    requires
        children_sorted(children),
    ensures
        children_sorted(with_child(children, p, c)),
        forall|q: Hash256, x: Hash256| #[trigger] kids_of(with_child(children, p, c), q).contains(x) <==> (
        kids_of(children, q).contains(x) || (q == p && x == c)),
        forall|q: Hash256| #[trigger] with_child(children, p, c).contains_key(q) <==> (children.contains_key(q) || q
            == p),
{
    let s = kids_of(children, p);
    if !s.contains(c) {
        if children.contains_key(p) {
            assert(sorted_roots(children[p]));
        }
        let i = lemma_insert_pos_exists(s, c, 0);
        lemma_insert_root(s, c, i);
        let w = with_child(children, p, c);
        assert forall|q: Hash256| #[trigger] w.contains_key(q) implies sorted_roots(w[q]) by {
            if q != p {
                assert(children.contains_key(q));
            }
        }
    } else {
        assert forall|q: Hash256| #[trigger] children.contains_key(q) <==> (children.contains_key(q) || q == p) by {
            if q == p && !children.contains_key(q) {
                assert(!s.contains(c));
            }
        }
    }
}

/// Two root-ordered lists that hold the same roots are equal.
pub proof fn lemma_sorted_same_roots(s1: Seq<Hash256>, s2: Seq<Hash256>)
    requires
        sorted_roots(s1),
        sorted_roots(s2),
        forall|x: Hash256| #[trigger] s1.contains(x) <==> s2.contains(x),
    ensures
        s1 == s2,
    decreases s1.len(),
{
    if s1.len() == 0 {
        if s2.len() > 0 {
            assert(s2.contains(s2[0]));
            assert(s1.contains(s2[0]));
        }
        assert(s1 =~= s2);
    } else {
        assert(s1.contains(s1[0]));
        assert(s2.contains(s1[0]));
        assert(s2.len() > 0);
        assert(s2.contains(s2[0]));
        assert(s1.contains(s2[0]));
        let k = choose|k: int| 0 <= k < s2.len() && s2[k] == s1[0];
        let m = choose|m: int| 0 <= m < s1.len() && s1[m] == s2[0];
        if k > 0 {
            assert(root_lt(s2[0], s2[k]));
            if m > 0 {
                assert(root_lt(s1[0], s1[m]));
            }
        }
        assert(s1[0] == s2[0]);
        let t1 = s1.drop_first();
        let t2 = s2.drop_first();
        assert forall|x: Hash256| #[trigger] t1.contains(x) <==> t2.contains(x) by {
            if t1.contains(x) {
                let a = choose|a: int| 0 <= a < t1.len() && t1[a] == x;
                assert(s1[a + 1] == x && root_lt(s1[0], s1[a + 1]));
                assert(s1.contains(x));
                assert(s2.contains(x));
                let b = choose|b: int| 0 <= b < s2.len() && s2[b] == x;
                assert(b != 0);
                assert(t2[b - 1] == x);
            }
            if t2.contains(x) {
                let a = choose|a: int| 0 <= a < t2.len() && t2[a] == x;
                assert(s2[a + 1] == x && root_lt(s2[0], s2[a + 1]));
                assert(s2.contains(x));
                assert(s1.contains(x));
                let b = choose|b: int| 0 <= b < s1.len() && s1[b] == x;
                assert(b != 0);
                assert(t1[b - 1] == x);
            }
        }
        assert forall|i: int, j: int| 0 <= i < j < t1.len() implies root_lt(#[trigger] t1[i], #[trigger] t1[j]) by {
            assert(t1[i] == s1[i + 1] && t1[j] == s1[j + 1]);
        }
        assert forall|i: int, j: int| 0 <= i < j < t2.len() implies root_lt(#[trigger] t2[i], #[trigger] t2[j]) by {
            assert(t2[i] == s2[i + 1] && t2[j] == s2[j + 1]);
        }
        lemma_sorted_same_roots(t1, t2);
        assert(s1.len() == s2.len());
        assert forall|i: int| 0 <= i < s1.len() implies s1[i] == s2[i] by {
            if i > 0 {
                assert(s1[i] == t1[i - 1] && s2[i] == t2[i - 1]);
            }
        }
        assert(s1 =~= s2);
    }
}

/// Every child list of a root-ordered index is in root order, also that of a root without
/// an entry.
proof fn lemma_kids_sorted(children: Map<Hash256, Seq<Hash256>>, p: Hash256)
    requires
        children_sorted(children),
    ensures
        sorted_roots(kids_of(children, p)),
{
    if children.contains_key(p) {
        assert(sorted_roots(children[p]));
    }
}

/// Recording the same child twice leaves the child index as recording it once did; the
/// child lists stay in root order, so none holds a root twice.
pub proof fn add_block_twice_is_once(children: Map<Hash256, Seq<Hash256>>, p: Hash256, c: Hash256)
    requires
        children_sorted(children),
    ensures
        with_child(with_child(children, p, c), p, c) == with_child(children, p, c),
        children_sorted(with_child(children, p, c)),
        kids_of(with_child(children, p, c), p).contains(c),
{
    lemma_with_child(children, p, c);
}

/// Recording two children in either order gives the same child index and the same number of
/// links.
pub proof fn add_block_order_is_irrelevant(
    children: Map<Hash256, Seq<Hash256>>,
    p1: Hash256,
    c1: Hash256,
    p2: Hash256,
    c2: Hash256,
    e: nat,
)
    requires
        children_sorted(children),
        e <= u64::MAX,
    ensures
        with_child(with_child(children, p1, c1), p2, c2) == with_child(with_child(children, p2, c2), p1, c1),
        edges_after(with_child(children, p1, c1), p2, c2, edges_after(children, p1, c1, e)) == edges_after(
            with_child(children, p2, c2),
            p1,
            c1,
            edges_after(children, p2, c2, e),
        ),
{
    let w1 = with_child(children, p1, c1);
    let w2 = with_child(children, p2, c2);
    lemma_with_child(children, p1, c1);
    lemma_with_child(children, p2, c2);
    lemma_with_child(w1, p2, c2);
    lemma_with_child(w2, p1, c1);
    let a = with_child(w1, p2, c2);
    let b = with_child(w2, p1, c1);
    assert forall|q: Hash256| #[trigger] a.contains_key(q) implies a[q] == b[q] by {
        lemma_kids_sorted(a, q);
        lemma_kids_sorted(b, q);
        assert forall|x: Hash256| #[trigger] kids_of(a, q).contains(x) <==> kids_of(b, q).contains(x) by {
            assert(kids_of(a, q).contains(x) == (kids_of(w1, q).contains(x) || (q == p2 && x == c2)));
            assert(kids_of(b, q).contains(x) == (kids_of(w2, q).contains(x) || (q == p1 && x == c1)));
            assert(kids_of(w1, q).contains(x) == (kids_of(children, q).contains(x) || (q == p1 && x == c1)));
            assert(kids_of(w2, q).contains(x) == (kids_of(children, q).contains(x) || (q == p2 && x == c2)));
        }
        lemma_sorted_same_roots(kids_of(a, q), kids_of(b, q));
    }
    assert(a =~= b);
    assert(kids_of(w1, p2).contains(c2) == (kids_of(children, p2).contains(c2) || (p2 == p1 && c2 == c1)));
    assert(kids_of(w2, p1).contains(c1) == (kids_of(children, p1).contains(c1) || (p1 == p2 && c1 == c2)));
}

proof fn lemma_descend_same_kids(
    blocks: Map<Hash256, BeaconBlock>,
    votes: Seq<(Hash256, nat)>,
    ch1: Map<Hash256, Seq<Hash256>>,
    ch2: Map<Hash256, Seq<Hash256>>,
    head: Hash256,
    fuel: nat,
)
    requires
        forall|q: Hash256| #[trigger] kids_of(ch1, q) == kids_of(ch2, q),
    ensures
        descend(blocks, votes, ch1, head, fuel) == descend(blocks, votes, ch2, head, fuel),
    decreases fuel,
{
    assert(kids_of(ch1, head) == kids_of(ch2, head));
    if fuel > 0 {
        if let Ok((Some(c), _)) = best_child(blocks, votes, ch1, head) {
            lemma_descend_same_kids(blocks, votes, ch1, ch2, c, (fuel - 1) as nat);
        }
    }
}

/// The head depends on the child index only through the set of children of each root: two
/// root-ordered indexes that give each root the same children give the same head.
pub proof fn find_head_depends_on_child_sets(g1: ForkChoiceView, g2: ForkChoiceView, root: Hash256)
    requires
        g1.targets == g2.targets,
        g1.blocks == g2.blocks,
        g1.states == g2.states,
        g1.edges == g2.edges,
        children_sorted(g1.children),
        children_sorted(g2.children),
        forall|q: Hash256, x: Hash256| #[trigger] kids_of(g1.children, q).contains(x) <==> #[trigger] kids_of(
            g2.children,
            q,
        ).contains(x),
    ensures
        find_head_of(g1, root) == find_head_of(g2, root),
{
    assert forall|q: Hash256| #[trigger] kids_of(g1.children, q) == kids_of(g2.children, q) by {
        lemma_kids_sorted(g1.children, q);
        lemma_kids_sorted(g2.children, q);
        assert forall|x: Hash256| #[trigger] kids_of(g1.children, q).contains(x) <==> kids_of(g2.children, q).contains(x) by {
        }
        lemma_sorted_same_roots(kids_of(g1.children, q), kids_of(g2.children, q));
    }
    if g1.blocks.contains_key(root) {
        if let Ok(votes) = crate::slow_lmd_ghost::latest_votes(g1.states, g1.targets, g1.blocks[root].state_root, g1.blocks[root].slot) {
            lemma_descend_same_kids(g1.blocks, votes, g1.children, g2.children, root, g1.edges);
        }
    }
}

/// Walks that start under their limits do not depend on the limit.
proof fn lemma_walk_limit(blocks: Map<Hash256, BeaconBlock>, x: Hash256, s: u64, l1: nat, l2: nat)
    requires
        blocks.contains_key(x),
        blocks[x].slot < l1,
        blocks[x].slot < l2,
    ensures
        walk(blocks, x, s, l1) == walk(blocks, x, s, l2),
{
}

/// Walking down to `s2` passes through the block found when walking down to `s1 >= s2`.
proof fn lemma_walk_compose(blocks: Map<Hash256, BeaconBlock>, x: Hash256, s1: u64, s2: u64, lim: nat)
    requires
        s2 <= s1,
        walk(blocks, x, s1, lim) is Ok,
    ensures
        walk(blocks, x, s2, lim) == ancestor_at(blocks, walk(blocks, x, s1, lim)->Ok_0, s2),
    decreases lim,
{
    if blocks[x].slot <= s1 {
        lemma_walk_limit(blocks, x, s2, lim, slot_bound());
    } else {
        lemma_walk_compose(blocks, blocks[x].parent_root, s1, s2, blocks[x].slot as nat);
    }
}

/// Of two children of one parent, a target can have only one as its ancestor.
proof fn lemma_sibling_not_ancestor(
    blocks: Map<Hash256, BeaconBlock>,
    root: Hash256,
    c: Hash256,
    k: Hash256,
    t: Hash256,
)
    requires
        c != k,
        blocks.contains_key(root),
        blocks.contains_key(c),
        blocks.contains_key(k),
        blocks[c].parent_root == root,
        blocks[k].parent_root == root,
        blocks[root].slot < blocks[c].slot,
        blocks[root].slot < blocks[k].slot,
        ancestor_at(blocks, t, blocks[c].slot) == Ok::<Hash256, Error>(c),
    ensures
        ancestor_at(blocks, t, blocks[k].slot) != Ok::<Hash256, Error>(k),
{
    if ancestor_at(blocks, t, blocks[k].slot) == Ok::<Hash256, Error>(k) {
        let cs = blocks[c].slot;
        let ks = blocks[k].slot;
        if ks > cs {
            lemma_walk_compose(blocks, t, ks, cs, slot_bound());
            assert(walk(blocks, root, cs, ks as nat) == Ok::<Hash256, Error>(root));
            assert(ancestor_at(blocks, k, cs) == Ok::<Hash256, Error>(root));
        } else if ks < cs {
            lemma_walk_compose(blocks, t, cs, ks, slot_bound());
            assert(walk(blocks, root, ks, cs as nat) == Ok::<Hash256, Error>(root));
            assert(ancestor_at(blocks, c, ks) == Ok::<Hash256, Error>(root));
        }
    }
}

/// Every entry of a vote list has weight and a root that some contributing validator
/// attests to, and the list is empty only when no validator contributes.
proof fn lemma_votes_entries(st: BeaconState, targets: Map<u64, Hash256>, epoch: u64, n: nat)
    requires
        n <= st.validator_registry@.len(),
        st.well_formed(),
    ensures
        forall|j: int| 0 <= j < votes_upto(st, targets, epoch, n).len() ==>
            (#[trigger] votes_upto(st, targets, epoch, n)[j]).1 > 0 && exists|i: int|
                0 <= i < n && contributes(st, targets, epoch, i) && targets[i as u64]
                    == votes_upto(st, targets, epoch, n)[j].0,
        (exists|i: int| 0 <= i < n && contributes(st, targets, epoch, i)) ==> votes_upto(st, targets, epoch, n).len() > 0,
    decreases n,
{
    if n > 0 {
        let m = (n - 1) as nat;
        lemma_votes_entries(st, targets, epoch, m);
        let prev = votes_upto(st, targets, epoch, m);
        let cur = votes_upto(st, targets, epoch, n);
        let i = n - 1;
        if contributes(st, targets, epoch, i) {
            let t = targets[i as u64];
            let w = crate::types::weight_of(st.validator_balances@[i]);
            assert forall|j: int| 0 <= j < cur.len() implies (#[trigger] cur[j]).1 > 0 && exists|i2: int|
                0 <= i2 < n && contributes(st, targets, epoch, i2) && targets[i2 as u64] == cur[j].0 by {
                if j < prev.len() && cur[j] == prev[j] {
                    let i2 = choose|i2: int|
                        0 <= i2 < m && contributes(st, targets, epoch, i2) && targets[i2 as u64] == prev[j].0;
                    assert(0 <= i2 < n);
                } else {
                    assert(cur[j].0 == t);
                    assert(0 <= i < n);
                }
            }
        } else {
            assert forall|j: int| 0 <= j < cur.len() implies (#[trigger] cur[j]).1 > 0 && exists|i2: int|
                0 <= i2 < n && contributes(st, targets, epoch, i2) && targets[i2 as u64] == cur[j].0 by {
                assert(cur[j] == prev[j]);
                let i2 = choose|i2: int|
                    0 <= i2 < m && contributes(st, targets, epoch, i2) && targets[i2 as u64] == prev[j].0;
                assert(0 <= i2 < n);
            }
            if exists|i2: int| 0 <= i2 < n && contributes(st, targets, epoch, i2) {
                let i2 = choose|i2: int| 0 <= i2 < n && contributes(st, targets, epoch, i2);
                assert(0 <= i2 < m);
            }
        }
    }
}

proof fn lemma_score_all(
    blocks: Map<Hash256, BeaconBlock>,
    votes: Seq<(Hash256, nat)>,
    c: Hash256,
    cslot: u64,
    k: nat,
)
    requires
        k <= votes.len(),
        forall|j: int| 0 <= j < votes.len() ==> ancestor_at(blocks, (#[trigger] votes[j]).0, cslot) == Ok::<Hash256, Error>(c),
    ensures
        score_upto(blocks, votes, c, cslot, k) == Ok::<nat, Error>(total(votes.take(k as int))),
    decreases k,
{
    if k > 0 {
        lemma_score_all(blocks, votes, c, cslot, (k - 1) as nat);
        assert(votes.take(k as int).drop_last() =~= votes.take(k - 1));
        assert(ancestor_at(blocks, votes[k - 1].0, cslot) == Ok::<Hash256, Error>(c));
    }
}

proof fn lemma_score_none(
    blocks: Map<Hash256, BeaconBlock>,
    votes: Seq<(Hash256, nat)>,
    c: Hash256,
    cslot: u64,
    k: nat,
)
    requires
        k <= votes.len(),
        forall|j: int| 0 <= j < votes.len() ==> ancestor_at(blocks, (#[trigger] votes[j]).0, cslot) != Ok::<Hash256, Error>(c),
    ensures
        score_upto(blocks, votes, c, cslot, k) is Ok ==> score_upto(blocks, votes, c, cslot, k)->Ok_0 == 0,
    decreases k,
{
    if k > 0 {
        lemma_score_none(blocks, votes, c, cslot, (k - 1) as nat);
        assert(ancestor_at(blocks, votes[k - 1].0, cslot) != Ok::<Hash256, Error>(c));
    }
}

proof fn lemma_best_single(
    blocks: Map<Hash256, BeaconBlock>,
    votes: Seq<(Hash256, nat)>,
    kids: Seq<Hash256>,
    c: Hash256,
    sc: nat,
    k: nat,
)
    requires
        k <= kids.len(),
        sc > 0,
        score(blocks, votes, c) == Ok::<nat, Error>(sc),
        forall|i: int| 0 <= i < kids.len() && kids[i] != c ==> (score(blocks, votes, #[trigger] kids[i]) is Ok
            ==> score(blocks, votes, kids[i])->Ok_0 == 0),
    ensures
        best_upto(blocks, votes, kids, k) is Ok ==> best_upto(blocks, votes, kids, k)->Ok_0 == (if exists|i: int| 0 <= i < k && kids[i] == c {
            (Some(c), sc)
        } else {
            (None::<Hash256>, 0nat)
        }),
    decreases k,
{
    if k > 0 {
        lemma_best_single(blocks, votes, kids, c, sc, (k - 1) as nat);
        if exists|i: int| 0 <= i < k - 1 && kids[i] == c {
            let i = choose|i: int| 0 <= i < k - 1 && kids[i] == c;
            assert(0 <= i < k && kids[i] == c);
        }
        if kids[k - 1] == c {
            assert(0 <= k - 1 < k && kids[k - 1] == c);
        } else if exists|i: int| 0 <= i < k && kids[i] == c {
            let i = choose|i: int| 0 <= i < k && kids[i] == c;
            assert(0 <= i < k - 1 && kids[i] == c);
        }
    }
}

/// The state that `root`'s block refers to.
pub open spec fn justified_state(g: ForkChoiceView, root: Hash256) -> BeaconState {
    g.states[g.blocks[root].state_root]
}

/// The head picked from `root` descends from its child `c` when every child of `root` is a
/// stored block with parent `root` and a slot above `root`'s, and every contributing vote
/// has `c` as its target's ancestor at `c`'s slot (at least one vote exists).
proof fn lemma_votes_under_one_child(g: ForkChoiceView, root: Hash256, c: Hash256)
    requires
        g.blocks.contains_key(root),
        kids_of(g.children, root).contains(c),
        forall|k: Hash256| #[trigger] kids_of(g.children, root).contains(k) ==> g.blocks.contains_key(k)
            && g.blocks[k].parent_root == root && g.blocks[root].slot < g.blocks[k].slot,
        g.states.contains_key(g.blocks[root].state_root),
        justified_state(g, root).well_formed(),
        forall|i: int| 0 <= i < justified_state(g, root).validator_registry@.len() && #[trigger] contributes(
            justified_state(g, root), g.targets, epoch_of(g.blocks[root].slot), i,
        ) ==> ancestor_at(g.blocks, g.targets[i as u64], g.blocks[c].slot) == Ok::<Hash256, Error>(c),
        exists|i: int| 0 <= i < justified_state(g, root).validator_registry@.len() && #[trigger] contributes(
            justified_state(g, root), g.targets, epoch_of(g.blocks[root].slot), i,
        ),
    ensures
        find_head_of(g, root) matches Ok(h) ==> is_descendant(g.children, c, h),
{
    let st = justified_state(g, root);
    let epoch = epoch_of(g.blocks[root].slot);
    let n = st.validator_registry@.len();
    let votes = votes_upto(st, g.targets, epoch, n);
    let kids = kids_of(g.children, root);
    let blocks = g.blocks;
    lemma_votes_entries(st, g.targets, epoch, n);
    assert forall|j: int| 0 <= j < votes.len() implies ancestor_at(blocks, (#[trigger] votes[j]).0, blocks[c].slot)
        == Ok::<Hash256, Error>(c) by {
        let i = choose|i: int| 0 <= i < n && contributes(st, g.targets, epoch, i) && g.targets[i as u64] == votes[j].0;
    }
    lemma_score_all(blocks, votes, c, blocks[c].slot, votes.len());
    assert(votes.take(votes.len() as int) =~= votes);
    let sc = total(votes);
    lemma_entry_le_total(votes, 0);
    assert forall|i: int| 0 <= i < kids.len() && kids[i] != c implies (score(blocks, votes, #[trigger] kids[i]) is Ok
        ==> score(blocks, votes, kids[i])->Ok_0 == 0) by {
        let k = kids[i];
        assert(kids.contains(k));
        assert forall|j: int| 0 <= j < votes.len() implies ancestor_at(blocks, (#[trigger] votes[j]).0, blocks[k].slot)
            != Ok::<Hash256, Error>(k) by {
            lemma_sibling_not_ancestor(blocks, root, c, k, votes[j].0);
        }
        lemma_score_none(blocks, votes, k, blocks[k].slot, votes.len());
    }
    lemma_best_single(blocks, votes, kids, c, sc, kids.len());
    if let Ok(h) = find_head_of(g, root) {
        assert(best_child(blocks, votes, g.children, root) == Ok::<(Option<Hash256>, nat), Error>((Some(c), sc)));
        lemma_descend_reaches(blocks, votes, g.children, c, (g.edges - 1) as nat);
    }
}

/// Every stored block whose parent is stored has a slot above its parent's.
pub open spec fn slots_increase(blocks: Map<Hash256, BeaconBlock>) -> bool {
    forall|r: Hash256| #[trigger] blocks.contains_key(r) && blocks.contains_key(blocks[r].parent_root)
        ==> blocks[blocks[r].parent_root].slot < blocks[r].slot
}

/// Each recorded child is a stored block whose parent is the root it is recorded under.
pub open spec fn children_match_blocks(children: Map<Hash256, Seq<Hash256>>, blocks: Map<Hash256, BeaconBlock>) -> bool {
    forall|p: Hash256, k: Hash256| #[trigger] kids_of(children, p).contains(k) ==> blocks.contains_key(k)
        && blocks[k].parent_root == p
}

/// `p` follows parent links: each root but the last is a stored block whose parent is the
/// next root.
pub open spec fn is_parent_chain(blocks: Map<Hash256, BeaconBlock>, p: Seq<Hash256>) -> bool {
    &&& p.len() >= 1
    &&& forall|i: int| #![trigger p[i]] 0 <= i < p.len() - 1 ==> blocks.contains_key(p[i]) && blocks[p[i]].parent_root
        == p[i + 1]
}

/// `t` is `c` or reaches `c` by parent links.
pub open spec fn descends_by_parents(blocks: Map<Hash256, BeaconBlock>, t: Hash256, c: Hash256) -> bool {
    exists|p: Seq<Hash256>| #[trigger] is_parent_chain(blocks, p) && p[0] == t && p.last() == c
}

proof fn lemma_chain_walk(blocks: Map<Hash256, BeaconBlock>, p: Seq<Hash256>, i: int, lim: nat)
    requires
        slots_increase(blocks),
        is_parent_chain(blocks, p),
        blocks.contains_key(p.last()),
        0 <= i < p.len(),
        blocks.contains_key(p[i]),
        blocks[p[i]].slot < lim,
    ensures
        walk(blocks, p[i], blocks[p.last()].slot, lim) == Ok::<Hash256, Error>(p.last()),
        blocks[p[i]].slot >= blocks[p.last()].slot,
    decreases p.len() - i,
{
    if i < p.len() - 1 {
        let x = p[i];
        let y = p[i + 1];
        assert(blocks[x].parent_root == y);
        if i + 1 < p.len() - 1 {
            assert(blocks.contains_key(p[i + 1]));
        }
        assert(blocks.contains_key(y));
        assert(blocks[y].slot < blocks[x].slot);
        lemma_chain_walk(blocks, p, i + 1, blocks[x].slot as nat);
    }
}

proof fn lemma_path_is_parent_chain(
    children: Map<Hash256, Seq<Hash256>>,
    blocks: Map<Hash256, BeaconBlock>,
    c: Hash256,
    h: Hash256,
)
    requires
        children_match_blocks(children, blocks),
        is_descendant(children, c, h),
    ensures
        descends_by_parents(blocks, h, c),
{
    let q = choose|q: Seq<Hash256>| #[trigger] is_path(children, q) && q[0] == c && q.last() == h;
    let n = q.len();
    let p = Seq::new(n, |i: int| q[n - 1 - i]);
    assert forall|i: int| #![trigger p[i]] 0 <= i < p.len() - 1 implies blocks.contains_key(p[i]) && blocks[p[i]].parent_root
        == p[i + 1] by {
        let j = n - 2 - i;
        assert(kids_of(children, q[j]).contains(q[j + 1]));
        assert(p[i] == q[j + 1] && p[i + 1] == q[j]);
    }
    assert(is_parent_chain(blocks, p));
    assert(p[0] == h && p.last() == c);
}

/// Where the child index matches the stored blocks, slots rise along parent links, `c` is a
/// child of `root`, and every active validator of non-zero weight that has attested (at
/// least one has) attests to `c` or a block that reaches `c` by parent links, the head that
/// fork choice picks from `root` is `c` or a descendant of `c`, in the child index and by
/// parent links.
pub proof fn votes_under_one_child_choose_it(g: ForkChoiceView, root: Hash256, c: Hash256)
    requires
        g.blocks.contains_key(root),
        kids_of(g.children, root).contains(c),
        children_match_blocks(g.children, g.blocks),
        slots_increase(g.blocks),
        g.states.contains_key(g.blocks[root].state_root),
        justified_state(g, root).well_formed(),
        forall|i: int| 0 <= i < justified_state(g, root).validator_registry@.len() && #[trigger] contributes(
            justified_state(g, root), g.targets, epoch_of(g.blocks[root].slot), i,
        ) ==> descends_by_parents(g.blocks, g.targets[i as u64], c),
        exists|i: int| 0 <= i < justified_state(g, root).validator_registry@.len() && #[trigger] contributes(
            justified_state(g, root), g.targets, epoch_of(g.blocks[root].slot), i,
        ),
    ensures
        find_head_of(g, root) matches Ok(h) ==> is_descendant(g.children, c, h) && descends_by_parents(g.blocks, h, c),
{
    let blocks = g.blocks;
    let st = justified_state(g, root);
    let epoch = epoch_of(blocks[root].slot);
    assert(blocks.contains_key(c));
    assert forall|k: Hash256| #[trigger] kids_of(g.children, root).contains(k) implies blocks.contains_key(k)
        && blocks[k].parent_root == root && blocks[root].slot < blocks[k].slot by {
        assert(blocks.contains_key(k));
    }
    assert forall|i: int| 0 <= i < st.validator_registry@.len() && #[trigger] contributes(st, g.targets, epoch, i)
        implies ancestor_at(blocks, g.targets[i as u64], blocks[c].slot) == Ok::<Hash256, Error>(c) by {
        let p = choose|p: Seq<Hash256>| #[trigger] is_parent_chain(blocks, p) && p[0] == g.targets[i as u64] && p.last() == c;
        if p.len() > 1 {
            assert(blocks.contains_key(p[0]));
        }
        lemma_chain_walk(blocks, p, 0, slot_bound());
    }
    lemma_votes_under_one_child(g, root, c);
    if let Ok(h) = find_head_of(g, root) {
        lemma_path_is_parent_chain(g.children, blocks, c, h);
    }
}

} // verus!
