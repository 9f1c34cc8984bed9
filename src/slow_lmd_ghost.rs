use vstd::prelude::*;
use std::collections::HashMap;
use crate::root_map::{keys_unique, RootMap};
use crate::store::{ancestor_at, BlockStore, StateStore};
use crate::types::{
    root_lt, epoch_of, weight, weight_of, BeaconBlock, BeaconState, Error, Hash256, EPOCH_LENGTH,
    VALIDATOR_REGISTRY_LIMIT,
};

verus! {

broadcast use vstd::std_specs::hash::group_hash_axioms;

/// What a fork-choice engine holds, as mathematical values.
pub struct ForkChoiceView {
    /// Latest attestation target of each validator that has attested.
    pub targets: Map<u64, Hash256>,
    /// Known children of each parent root, in root order.
    pub children: Map<Hash256, Seq<Hash256>>,
    /// Number of (parent, child) links added; no descent takes more steps than this.
    pub edges: nat,
    /// The block store.
    pub blocks: Map<Hash256, BeaconBlock>,
    /// The state store.
    pub states: Map<Hash256, BeaconState>,
}

// ---------------------------------------------------------------------------------------------
// Attestations

/// The attestation index after validator `v` attests to `t`. A first attestation is taken as
/// it is; a later one replaces the stored target only when its block has a strictly greater
/// slot. Both blocks must be stored unless the two roots are equal.
pub open spec fn attest(
    blocks: Map<Hash256, BeaconBlock>,
    targets: Map<u64, Hash256>,
    v: u64,
    t: Hash256,
) -> Result<Map<u64, Hash256>, Error> {
    if !targets.contains_key(v) {
        Ok(targets.insert(v, t))
    } else if targets[v] == t {
        Ok(targets)
    } else if !blocks.contains_key(t) {
        Err(Error::MissingBeaconBlock(t))
    } else if !blocks.contains_key(targets[v]) {
        Err(Error::MissingBeaconBlock(targets[v]))
    } else if blocks[targets[v]].slot < blocks[t].slot {
        Ok(targets.insert(v, t))
    } else {
        Ok(targets)
    }
}

// ---------------------------------------------------------------------------------------------
// Children

/// Known children of `p`; none when `p` has no entry.
pub open spec fn kids_of(children: Map<Hash256, Seq<Hash256>>, p: Hash256) -> Seq<Hash256> {
    if children.contains_key(p) {
        children[p]
    } else {
        Seq::empty()
    }
}

/// Each root of `s` comes strictly before the next in root order.
pub open spec fn sorted_roots(s: Seq<Hash256>) -> bool {
    forall|i: int, j: int| 0 <= i < j < s.len() ==> root_lt(#[trigger] s[i], #[trigger] s[j])
}

/// Every child list of the index is in root order.
pub open spec fn children_sorted(children: Map<Hash256, Seq<Hash256>>) -> bool {
    forall|p: Hash256| #[trigger] children.contains_key(p) ==> sorted_roots(children[p])
}

/// `i` is where `c` goes in `s`: after every root of `s` before it in root order and before
/// every root after it.
pub open spec fn is_insert_pos(s: Seq<Hash256>, c: Hash256, i: int) -> bool {
    &&& 0 <= i <= s.len()
    &&& forall|j: int| 0 <= j < i ==> root_lt(#[trigger] s[j], c)
    &&& forall|j: int| i <= j < s.len() ==> root_lt(c, #[trigger] s[j])
}

/// `s` with `c` put in its place in root order.
pub open spec fn insert_root(s: Seq<Hash256>, c: Hash256) -> Seq<Hash256> {
    s.insert(choose|i: int| is_insert_pos(s, c, i), c)
}

/// The child index after `c` is recorded as a child of `p`: put in root order among `p`'s
/// children, unless already there.
pub open spec fn with_child(children: Map<Hash256, Seq<Hash256>>, p: Hash256, c: Hash256) -> Map<Hash256, Seq<Hash256>> {
    if kids_of(children, p).contains(c) {
        children
    } else {
        children.insert(p, insert_root(kids_of(children, p), c))
    }
}

/// Number of links after `c` is recorded as a child of `p` when there were `e`: one more if
/// `c` is new there, saturating at the largest `u64`.
pub open spec fn edges_after(children: Map<Hash256, Seq<Hash256>>, p: Hash256, c: Hash256, e: nat) -> nat {
    if kids_of(children, p).contains(c) || e >= u64::MAX {
        e
    } else {
        e + 1
    }
}

/// In a root-ordered list without `c`, the place for `c` is unique, and putting `c` there
/// keeps the order.
pub proof fn lemma_insert_root(s: Seq<Hash256>, c: Hash256, i: int)
    requires
        sorted_roots(s),
        !s.contains(c),
        is_insert_pos(s, c, i),
    ensures
        insert_root(s, c) == s.insert(i, c),
        sorted_roots(s.insert(i, c)),
        s.insert(i, c).contains(c),
        forall|x: Hash256| #[trigger] s.insert(i, c).contains(x) <==> s.contains(x) || x == c,
{
    let i2 = choose|i2: int| is_insert_pos(s, c, i2);
    assert(is_insert_pos(s, c, i2));
    if i2 < i {
        assert(root_lt(c, s[i2]) && root_lt(s[i2], c));
    } else if i2 > i {
        assert(root_lt(c, s[i]) && root_lt(s[i], c));
    }
    let u = s.insert(i, c);
    assert forall|a: int, b: int| 0 <= a < b < u.len() implies root_lt(#[trigger] u[a], #[trigger] u[b]) by {
        if a < i && b < i {
            assert(u[a] == s[a] && u[b] == s[b]);
        } else if a < i && b == i {
            assert(u[a] == s[a]);
        } else if a < i {
            assert(u[a] == s[a] && u[b] == s[b - 1]);
        } else if a == i {
            assert(u[b] == s[b - 1]);
        } else {
            assert(u[a] == s[a - 1] && u[b] == s[b - 1]);
        }
    }
    assert(u[i] == c);
    assert forall|x: Hash256| #[trigger] u.contains(x) <==> s.contains(x) || x == c by {
        if u.contains(x) {
            let k = choose|k: int| 0 <= k < u.len() && u[k] == x;
            if k < i {
                assert(s[k] == x);
            } else if k > i {
                assert(s[k - 1] == x);
            }
        }
        if s.contains(x) {
            let k = choose|k: int| 0 <= k < s.len() && s[k] == x;
            if k < i {
                assert(u[k] == x);
            } else {
                assert(u[k + 1] == x);
            }
        }
    }
}

// ---------------------------------------------------------------------------------------------
// Vote tally

/// Whether validator `i` of `st` adds weight to the tally in `epoch`: it is active, its
/// weight is not zero, and it has attested.
pub open spec fn contributes(st: BeaconState, targets: Map<u64, Hash256>, epoch: u64, i: int) -> bool {
    &&& st.validator_registry@[i].spec_is_active_at(epoch)
    &&& weight_of(st.validator_balances@[i]) > 0
    &&& targets.contains_key(i as u64)
}

/// Adds weight `w` to the entry of `t`, or appends a new entry for `t`.
pub open spec fn add_vote(s: Seq<(Hash256, nat)>, t: Hash256, w: nat) -> Seq<(Hash256, nat)> {
    if exists|j: int| 0 <= j < s.len() && s[j].0 == t {
        let j = choose|j: int| 0 <= j < s.len() && s[j].0 == t;
        s.update(j, (t, s[j].1 + w))
    } else {
        s.push((t, w))
    }
}

/// Weighted votes of the first `n` validators of `st`: each target root with the summed
/// weight of the contributing validators that attest to it, in order of first vote.
pub open spec fn votes_upto(st: BeaconState, targets: Map<u64, Hash256>, epoch: u64, n: nat) -> Seq<(Hash256, nat)>
    decreases n,
{
    if n == 0 {
        Seq::empty()
    } else {
        let prev = votes_upto(st, targets, epoch, (n - 1) as nat);
        let i = n - 1;
        if contributes(st, targets, epoch, i) {
            add_vote(prev, targets[i as u64], weight_of(st.validator_balances@[i]))
        } else {
            prev
        }
    }
}

/// Weighted votes of the state stored under `state_root`, for the epoch of `slot`.
pub open spec fn latest_votes(
    states: Map<Hash256, BeaconState>,
    targets: Map<u64, Hash256>,
    state_root: Hash256,
    slot: u64,
) -> Result<Seq<(Hash256, nat)>, Error> {
    if !states.contains_key(state_root) {
        Err(Error::MissingBeaconState(state_root))
    } else if !states[state_root].well_formed() {
        Err(Error::InvalidBeaconState(state_root))
    } else {
        let st = states[state_root];
        Ok(votes_upto(st, targets, epoch_of(slot), st.validator_registry@.len()))
    }
}

/// Sum of the weights in a vote list.
pub open spec fn total(s: Seq<(Hash256, nat)>) -> nat
    decreases s.len(),
{
    if s.len() == 0 {
        0
    } else {
        total(s.drop_last()) + s.last().1
    }
}

/// A vote list with machine weights, seen with mathematical weights.
pub open spec fn nat_votes(v: Seq<(Hash256, u64)>) -> Seq<(Hash256, nat)> {
    v.map_values(|p: (Hash256, u64)| (p.0, p.1 as nat))
}

/// Bound on the total weight of a well-formed state.
pub open spec fn weight_bound() -> nat {
    (32 * VALIDATOR_REGISTRY_LIMIT) as nat
}

proof fn lemma_total_update(s: Seq<(Hash256, nat)>, j: int, w: nat)
    requires
        0 <= j < s.len(),
    ensures
        total(s.update(j, (s[j].0, s[j].1 + w))) == total(s) + w,
    decreases s.len(),
{
    let u = s.update(j, (s[j].0, s[j].1 + w));
    if j == s.len() - 1 {
        assert(u.drop_last() =~= s.drop_last());
    } else {
        assert(u.drop_last() =~= s.drop_last().update(j, (s[j].0, s[j].1 + w)));
        lemma_total_update(s.drop_last(), j, w);
    }
}

pub(crate) proof fn lemma_entry_le_total(s: Seq<(Hash256, nat)>, j: int)
    requires
        0 <= j < s.len(),
    ensures
        s[j].1 <= total(s),
    decreases s.len(),
{
    if j < s.len() - 1 {
        lemma_entry_le_total(s.drop_last(), j);
    }
}

proof fn lemma_total_take(s: Seq<(Hash256, nat)>, k: int)
    requires
        0 <= k <= s.len(),
    ensures
        total(s.take(k)) <= total(s),
    decreases s.len(),
{
    if k == s.len() {
        assert(s.take(k) =~= s);
    } else {
        assert(s.take(k) =~= s.drop_last().take(k));
        lemma_total_take(s.drop_last(), k);
    }
}

/// Adding a vote keeps the roots distinct and adds its weight to the total.
proof fn lemma_add_vote(s: Seq<(Hash256, nat)>, t: Hash256, w: nat)
    requires
        keys_unique(s),
    ensures
        keys_unique(add_vote(s, t, w)),
        total(add_vote(s, t, w)) == total(s) + w,
        add_vote(s, t, w).len() >= s.len(),
{
    if exists|j: int| 0 <= j < s.len() && s[j].0 == t {
        let j = choose|j: int| 0 <= j < s.len() && s[j].0 == t;
        lemma_total_update(s, j, w);
    } else {
        assert(add_vote(s, t, w).drop_last() =~= s);
    }
}

// ---------------------------------------------------------------------------------------------
// Head finder

/// Weight of the first `k` votes whose target has `c` as its ancestor at slot `cslot`.
/// Fails on the first target whose ancestor cannot be found.
pub open spec fn score_upto(
    blocks: Map<Hash256, BeaconBlock>,
    votes: Seq<(Hash256, nat)>,
    c: Hash256,
    cslot: u64,
    k: nat,
) -> Result<nat, Error>
    decreases k,
{
    if k == 0 {
        Ok(0)
    } else {
        match score_upto(blocks, votes, c, cslot, (k - 1) as nat) {
            Err(e) => Err(e),
            Ok(acc) => match ancestor_at(blocks, votes[k - 1].0, cslot) {
                Err(e) => Err(e),
                Ok(a) => Ok(
                    if a == c {
                        acc + votes[k - 1].1
                    } else {
                        acc
                    },
                ),
            },
        }
    }
}

/// Weight of the votes for `c` or its descendants: those whose target has `c` as its
/// ancestor at `c`'s slot.
pub open spec fn score(blocks: Map<Hash256, BeaconBlock>, votes: Seq<(Hash256, nat)>, c: Hash256) -> Result<nat, Error> {
    if !blocks.contains_key(c) {
        Err(Error::MissingBeaconBlock(c))
    } else {
        score_upto(blocks, votes, c, blocks[c].slot, votes.len())
    }
}

/// Best of the first `k` children with its score: the first child whose score is strictly
/// greater than every score before it and than zero; none when every score is zero.
pub open spec fn best_upto(
    blocks: Map<Hash256, BeaconBlock>,
    votes: Seq<(Hash256, nat)>,
    kids: Seq<Hash256>,
    k: nat,
) -> Result<(Option<Hash256>, nat), Error>
    decreases k,
{
    if k == 0 {
        Ok((None, 0))
    } else {
        match best_upto(blocks, votes, kids, (k - 1) as nat) {
            Err(e) => Err(e),
            Ok((b, m)) => match score(blocks, votes, kids[k - 1]) {
                Err(e) => Err(e),
                Ok(s) => if s > m {
                    Ok((Some(kids[k - 1]), s))
                } else {
                    Ok((b, m))
                },
            },
        }
    }
}

/// Best child of `head`, if any child has votes.
pub open spec fn best_child(
    blocks: Map<Hash256, BeaconBlock>,
    votes: Seq<(Hash256, nat)>,
    children: Map<Hash256, Seq<Hash256>>,
    head: Hash256,
) -> Result<(Option<Hash256>, nat), Error> {
    best_upto(blocks, votes, kids_of(children, head), kids_of(children, head).len())
}

/// Greedy descent from `head`: move to the best child while one has votes, taking at most
/// `fuel` steps.
pub open spec fn descend(
    blocks: Map<Hash256, BeaconBlock>,
    votes: Seq<(Hash256, nat)>,
    children: Map<Hash256, Seq<Hash256>>,
    head: Hash256,
    fuel: nat,
) -> Result<Hash256, Error>
    decreases fuel,
{
    match best_child(blocks, votes, children, head) {
        Err(e) => Err(e),
        Ok((None, _)) => Ok(head),
        Ok((Some(c), _)) => if fuel == 0 {
            Err(Error::GraphTooDeep)
        } else {
            descend(blocks, votes, children, c, (fuel - 1) as nat)
        },
    }
}

/// The head that LMD-GHOST picks from `root`: the votes are tallied in the state of `root`'s
/// block, for the epoch of its slot, and the descent may take as many steps as there are
/// links in the child index.
pub open spec fn find_head_of(g: ForkChoiceView, root: Hash256) -> Result<Hash256, Error> {
    if !g.blocks.contains_key(root) {
        Err(Error::MissingBeaconBlock(root))
    } else {
        match latest_votes(g.states, g.targets, g.blocks[root].state_root, g.blocks[root].slot) {
            Err(e) => Err(e),
            Ok(votes) => descend(g.blocks, votes, g.children, root, g.edges),
        }
    }
}

proof fn lemma_score_bound(
    blocks: Map<Hash256, BeaconBlock>,
    votes: Seq<(Hash256, nat)>,
    c: Hash256,
    cslot: u64,
    k: nat,
)
    requires
        k <= votes.len(),
    ensures
        score_upto(blocks, votes, c, cslot, k) is Ok ==> score_upto(blocks, votes, c, cslot, k)->Ok_0
            <= total(votes.take(k as int)),
    decreases k,
{
    if k > 0 {
        lemma_score_bound(blocks, votes, c, cslot, (k - 1) as nat);
        assert(votes.take(k as int).drop_last() =~= votes.take(k - 1));
    }
}

proof fn lemma_score_err(
    blocks: Map<Hash256, BeaconBlock>,
    votes: Seq<(Hash256, nat)>,
    c: Hash256,
    cslot: u64,
    k: nat,
    m: nat,
)
    requires
        k <= m,
        score_upto(blocks, votes, c, cslot, k) is Err,
    ensures
        score_upto(blocks, votes, c, cslot, m) == score_upto(blocks, votes, c, cslot, k),
    decreases m,
{
    if m > k {
        lemma_score_err(blocks, votes, c, cslot, k, (m - 1) as nat);
    }
}

proof fn lemma_best_err(
    blocks: Map<Hash256, BeaconBlock>,
    votes: Seq<(Hash256, nat)>,
    kids: Seq<Hash256>,
    k: nat,
    m: nat,
)
    requires
        k <= m,
        best_upto(blocks, votes, kids, k) is Err,
    ensures
        best_upto(blocks, votes, kids, m) == best_upto(blocks, votes, kids, k),
    decreases m,
{
    if m > k {
        lemma_best_err(blocks, votes, kids, k, (m - 1) as nat);
    }
}

// ---------------------------------------------------------------------------------------------
// Engine

/// The slow LMD-GHOST fork choice: an attestation index, a child index, and the stores they
/// refer to.
pub struct SlowLMDGhost {
    /// The latest attestation target of each validator.
    latest_attestation_targets: HashMap<u64, Hash256>,
    /// The children of each parent, in root order.
    children: RootMap<Vec<Hash256>>,
    /// Number of (parent, child) links added, saturating.
    edge_count: u64,
    /// Block storage.
    block_store: BlockStore,
    /// State storage.
    state_store: StateStore,
}

impl View for SlowLMDGhost {
    type V = ForkChoiceView;

    closed spec fn view(&self) -> ForkChoiceView {
        ForkChoiceView {
            targets: self.latest_attestation_targets@,
            children: self.children@.map_values(|v: Vec<Hash256>| v@),
            edges: self.edge_count as nat,
            blocks: self.block_store@,
            states: self.state_store@,
        }
    }
}

fn copy_roots(v: &Vec<Hash256>) -> (r: Vec<Hash256>)
    ensures
        r@ == v@,
{
    let mut r: Vec<Hash256> = Vec::new();
    let mut i: usize = 0;
    while i < v.len()
        invariant
            i <= v@.len(),
            r@ == v@.take(i as int),
        decreases v@.len() - i,
    {
        r.push(v[i]);
        i = i + 1;
        assert(r@ =~= v@.take(i as int));
    }
    assert(v@.take(v@.len() as int) =~= v@);
    r
}

fn find_vote(v: &Vec<(Hash256, u64)>, t: &Hash256) -> (r: Option<usize>)
    ensures
        match r {
            Some(j) => j < v@.len() && v@[j as int].0 == *t,
            None => forall|k: int| 0 <= k < v@.len() ==> v@[k].0 != *t,
        },
{
    let mut j: usize = 0;
    while j < v.len()
        invariant
            j <= v@.len(),
            forall|k: int| 0 <= k < j ==> v@[k].0 != *t,
        decreases v@.len() - j,
    {
        if v[j].0 == *t {
            return Some(j);
        }
        j = j + 1;
    }
    None
}

fn contains_root(v: &Vec<Hash256>, x: &Hash256) -> (r: bool)
    ensures
        r == v@.contains(*x),
{
    let mut i: usize = 0;
    while i < v.len()
        invariant
            i <= v@.len(),
            forall|j: int| 0 <= j < i ==> v@[j] != *x,
        decreases v@.len() - i,
    {
        if v[i] == *x {
            return true;
        }
        i = i + 1;
    }
    false
}

impl SlowLMDGhost {
    pub closed spec fn well_formed(&self) -> bool {
        &&& self.children.well_formed()
        &&& self.block_store.well_formed()
        &&& self.state_store.well_formed()
        &&& children_sorted(self@.children)
    }

    /// An engine over the given stores, with no attestations and no children recorded.
    pub fn new(block_store: BlockStore, state_store: StateStore) -> (r: SlowLMDGhost)
        requires
            block_store.well_formed(),
            state_store.well_formed(),
        ensures
            r.well_formed(),
            children_sorted(r@.children),
            r@.targets == Map::<u64, Hash256>::empty(),
            r@.children == Map::<Hash256, Seq<Hash256>>::empty(),
            r@.edges == 0,
            r@.blocks == block_store@,
            r@.states == state_store@,
    {
        let r = SlowLMDGhost {
            latest_attestation_targets: HashMap::new(),
            children: RootMap::new(),
            edge_count: 0,
            block_store,
            state_store,
        };
        assert(r@.children =~= Map::<Hash256, Seq<Hash256>>::empty());
        r
    }

    /// Records `block_hash` as a child of `block.parent_root`, in root order among its
    /// siblings. Adding the same child twice changes nothing.
    pub fn add_block(&mut self, block: &BeaconBlock, block_hash: &Hash256) -> (r: Result<(), Error>)
        requires
            old(self).well_formed(),
        ensures
            final(self).well_formed(),
            children_sorted(final(self)@.children),
            r is Ok,
            final(self)@.children == with_child(old(self)@.children, block.parent_root, *block_hash),
            final(self)@.edges == edges_after(old(self)@.children, block.parent_root, *block_hash, old(self)@.edges),
            final(self)@.targets == old(self)@.targets,
            final(self)@.blocks == old(self)@.blocks,
            final(self)@.states == old(self)@.states,
    {
        let p = block.parent_root;
        let mut kids: Vec<Hash256> = match self.children.get(&p) {
            Some(v) => copy_roots(v),
            None => Vec::new(),
        };
        assert(kids@ == kids_of(old(self)@.children, p));
        if contains_root(&kids, block_hash) {
            return Ok(());
        }
        let ghost old_kids = kids@;
        proof {
            assert(old(self)@.children.contains_key(p) ==> sorted_roots(old(self)@.children[p]));
        }
        let mut i: usize = 0;
        while i < kids.len() && kids[i].precedes(block_hash)
            invariant
                kids@ == old_kids,
                i <= kids@.len(),
                forall|j: int| 0 <= j < i ==> root_lt(#[trigger] kids@[j], *block_hash),
            decreases kids@.len() - i,
        {
            i = i + 1;
        }
        proof {
            assert forall|j: int| i <= j < old_kids.len() implies root_lt(*block_hash, #[trigger] old_kids[j]) by {
                assert(old_kids[i as int] != *block_hash);
                assert(root_lt(*block_hash, old_kids[i as int]));
                if j > i {
                    assert(root_lt(old_kids[i as int], old_kids[j]));
                }
            }
            assert(is_insert_pos(old_kids, *block_hash, i as int));
            lemma_insert_root(old_kids, *block_hash, i as int);
        }
        kids.insert(i, *block_hash);
        self.children.insert(p, kids);
        if self.edge_count < u64::MAX {
            self.edge_count = self.edge_count + 1;
        }
        assert(self@.children =~= with_child(old(self)@.children, p, *block_hash));
        assert forall|q: Hash256| #[trigger] self@.children.contains_key(q) implies sorted_roots(self@.children[q]) by {
            if q != p {
                assert(old(self)@.children.contains_key(q));
            }
        }
        Ok(())
    }

    /// Records that validator `validator_index` attests to `target_block_root`, keeping the
    /// stored target when the new block's slot is not strictly greater. On error nothing
    /// changes.
    pub fn add_attestation(&mut self, validator_index: u64, target_block_root: &Hash256) -> (r: Result<(), Error>)
        requires
            old(self).well_formed(),
        ensures
            final(self).well_formed(),
            children_sorted(final(self)@.children),
            match attest(old(self)@.blocks, old(self)@.targets, validator_index, *target_block_root) {
                Ok(m) => r is Ok && final(self)@.targets == m,
                Err(e) => r == Err::<(), Error>(e) && final(self)@.targets == old(self)@.targets,
            },
            final(self)@.children == old(self)@.children,
            final(self)@.edges == old(self)@.edges,
            final(self)@.blocks == old(self)@.blocks,
            final(self)@.states == old(self)@.states,
    {
        let prior: Hash256 = match self.latest_attestation_targets.get(&validator_index) {
            None => {
                self.latest_attestation_targets.insert(validator_index, *target_block_root);
                return Ok(());
            },
            Some(p) => *p,
        };
        if prior == *target_block_root {
            return Ok(());
        }
        let block_height: u64 = match self.block_store.get(target_block_root) {
            None => {
                return Err(Error::MissingBeaconBlock(*target_block_root));
            },
            Some(b) => b.slot,
        };
        let past_block_height: u64 = match self.block_store.get(&prior) {
            None => {
                return Err(Error::MissingBeaconBlock(prior));
            },
            Some(b) => b.slot,
        };
        if past_block_height < block_height {
            self.latest_attestation_targets.insert(validator_index, *target_block_root);
        }
        Ok(())
    }

    /// Weighted latest votes of the state stored under `state_root`, for the epoch that holds
    /// `block_slot`: each target root with the summed weight of the active validators of
    /// non-zero weight that attest to it, in order of first vote. Fails when no state is
    /// stored under `state_root`, or when that state is not well formed.
    pub fn get_latest_votes(&self, state_root: &Hash256, block_slot: u64) -> (r: Result<Vec<(Hash256, u64)>, Error>)
        requires
            self.well_formed(),
        ensures
            match r {
                Ok(v) => latest_votes(self@.states, self@.targets, *state_root, block_slot)
                    == Ok::<Seq<(Hash256, nat)>, Error>(nat_votes(v@))
                    && keys_unique(nat_votes(v@)) && total(nat_votes(v@)) <= weight_bound(),
                Err(e) => latest_votes(self@.states, self@.targets, *state_root, block_slot)
                    == Err::<Seq<(Hash256, nat)>, Error>(e),
            },
    {
        let current_state = match self.state_store.get(state_root) {
            None => {
                return Err(Error::MissingBeaconState(*state_root));
            },
            Some(s) => s,
        };
        let n = current_state.validator_registry.len();
        if n > current_state.validator_balances.len() || n as u64 > VALIDATOR_REGISTRY_LIMIT {
            return Err(Error::InvalidBeaconState(*state_root));
        }
        let epoch = block_slot / EPOCH_LENGTH;
        let ghost st = *current_state;
        let ghost targets = self@.targets;
        let mut latest_votes: Vec<(Hash256, u64)> = Vec::new();
        let mut index: usize = 0;
        while index < n
            invariant
                self.well_formed(),
                st == *current_state,
                targets == self@.targets,
                st.well_formed(),
                n == st.validator_registry@.len(),
                epoch == epoch_of(block_slot),
                index <= n,
                nat_votes(latest_votes@) == votes_upto(st, targets, epoch, index as nat),
                keys_unique(nat_votes(latest_votes@)),
                total(nat_votes(latest_votes@)) <= 32 * index,
            decreases n - index,
        {
            let ghost prev = nat_votes(latest_votes@);
            if current_state.validator_registry[index].is_active_at(epoch) {
                let balance = weight(current_state.validator_balances[index]);
                if balance > 0 {
                    if let Some(target) = self.latest_attestation_targets.get(&(index as u64)) {
                        let t = *target;
                        proof {
                            lemma_add_vote(prev, t, balance as nat);
                        }
                        match find_vote(&latest_votes, &t) {
                            Some(j) => {
                                proof {
                                    assert(prev[j as int].0 == t);
                                    lemma_entry_le_total(prev, j as int);
                                }
                                let old_w = latest_votes[j].1;
                                latest_votes.set(j, (t, old_w + balance));
                                proof {
                                    let jj = choose|k: int| 0 <= k < prev.len() && prev[k].0 == t;
                                    assert(jj == j);
                                    assert(nat_votes(latest_votes@) =~= add_vote(prev, t, balance as nat));
                                }
                            },
                            None => {
                                latest_votes.push((t, balance));
                                proof {
                                    assert(!exists|k: int| 0 <= k < prev.len() && prev[k].0 == t);
                                    assert(nat_votes(latest_votes@) =~= add_vote(prev, t, balance as nat));
                                }
                            },
                        }
                    }
                }
            }
            index = index + 1;
        }
        Ok(latest_votes)
    }
    /// Weight of the votes in `latest_votes` whose target has `block_root` as its ancestor at
    /// `block_root`'s slot.
    fn get_vote_count(&self, latest_votes: &Vec<(Hash256, u64)>, block_root: &Hash256) -> (r: Result<u64, Error>)
        requires
            self.well_formed(),
            total(nat_votes(latest_votes@)) <= weight_bound(),
        ensures
            match r {
                Ok(x) => score(self@.blocks, nat_votes(latest_votes@), *block_root)
                    == Ok::<nat, Error>(x as nat),
                Err(e) => score(self@.blocks, nat_votes(latest_votes@), *block_root)
                    == Err::<nat, Error>(e),
            },
    {
        let ghost votes = nat_votes(latest_votes@);
        let block_slot: u64 = match self.block_store.get(block_root) {
            None => {
                return Err(Error::MissingBeaconBlock(*block_root));
            },
            Some(b) => b.slot,
        };
        let mut count: u64 = 0;
        let mut k: usize = 0;
        while k < latest_votes.len()
            invariant
                self.well_formed(),
                votes == nat_votes(latest_votes@),
                total(votes) <= weight_bound(),
                k <= latest_votes@.len(),
                self@.blocks.contains_key(*block_root),
                block_slot == self@.blocks[*block_root].slot,
                score_upto(self@.blocks, votes, *block_root, block_slot, k as nat) == Ok::<nat, Error>(count as nat),
            decreases latest_votes@.len() - k,
        {
            let (target_hash, votes_k) = latest_votes[k];
            match self.block_store.block_at_slot(&target_hash, block_slot) {
                Err(e) => {
                    proof {
                        assert(votes[k as int].0 == target_hash);
                        assert(score_upto(self@.blocks, votes, *block_root, block_slot, (k + 1) as nat)
                            == Err::<nat, Error>(e));
                        lemma_score_err(self@.blocks, votes, *block_root, block_slot, (k + 1) as nat, votes.len());
                    }
                    return Err(e);
                },
                Ok((root_at_slot, _)) => {
                    proof {
                        lemma_score_bound(self@.blocks, votes, *block_root, block_slot, (k + 1) as nat);
                        lemma_total_take(votes, k + 1);
                    }
                    if root_at_slot == *block_root {
                        count = count + votes_k;
                    }
                },
            }
            k = k + 1;
        }
        Ok(count)
    }

    /// The head of the chain that descends from `justified_block_start`: from there, move to
    /// the child that the most vote weight supports (on a tie, the first in root order) while any
    /// child has votes. Fails on a missing block or state, or when the descent takes more
    /// steps than there are links in the child index. Nothing changes.
    pub fn find_head(&mut self, justified_block_start: &Hash256) -> (r: Result<Hash256, Error>)
        requires
            old(self).well_formed(),
        ensures
            final(self).well_formed(),
            final(self)@ == old(self)@,
            children_sorted(final(self)@.children),
            r == find_head_of(old(self)@, *justified_block_start),
    {
        let start: BeaconBlock = match self.block_store.get(justified_block_start) {
            None => {
                return Err(Error::MissingBeaconBlock(*justified_block_start));
            },
            Some(b) => b,
        };
        let latest_votes = match self.get_latest_votes(&start.state_root, start.slot) {
            Err(e) => {
                return Err(e);
            },
            Ok(v) => v,
        };
        let ghost g = self@;
        let ghost votes = nat_votes(latest_votes@);
        let mut head_hash: Hash256 = *justified_block_start;
        let mut fuel: u64 = self.edge_count;
        loop
            invariant
                self.well_formed(),
                self@ == g,
                votes == nat_votes(latest_votes@),
                total(votes) <= weight_bound(),
                descend(g.blocks, votes, g.children, head_hash, fuel as nat) == find_head_of(g, *justified_block_start),
            decreases fuel,
        {
            let ghost kseq = kids_of(g.children, head_hash);
            let children = match self.children.get(&head_hash) {
                Some(children) => children,
                None => {
                    return Ok(head_hash);
                },
            };
            assert(children@ == kseq);
            let mut best: Option<Hash256> = None;
            let mut head_vote_count: u64 = 0;
            let mut k: usize = 0;
            while k < children.len()
                invariant
                    self.well_formed(),
                    self@ == g,
                    votes == nat_votes(latest_votes@),
                    total(votes) <= weight_bound(),
                    children@ == kseq,
                    kseq == kids_of(g.children, head_hash),
                    descend(g.blocks, votes, g.children, head_hash, fuel as nat)
                        == find_head_of(g, *justified_block_start),
                    k <= children@.len(),
                    best_upto(g.blocks, votes, kseq, k as nat) == Ok::<(Option<Hash256>, nat), Error>((best, head_vote_count as nat)),
                decreases children@.len() - k,
            {
                let child_hash = children[k];
                match self.get_vote_count(&latest_votes, &child_hash) {
                    Err(e) => {
                        proof {
                            assert(best_upto(g.blocks, votes, kseq, (k + 1) as nat)
                                == Err::<(Option<Hash256>, nat), Error>(e));
                            lemma_best_err(g.blocks, votes, kseq, (k + 1) as nat, kseq.len());
                            assert(best_child(g.blocks, votes, g.children, head_hash)
                                == Err::<(Option<Hash256>, nat), Error>(e));
                            assert(descend(g.blocks, votes, g.children, head_hash, fuel as nat)
                                == Err::<Hash256, Error>(e));
                        }
                        return Err(e);
                    },
                    Ok(vote_count) => {
                        if vote_count > head_vote_count {
                            best = Some(child_hash);
                            head_vote_count = vote_count;
                        }
                    },
                }
                k = k + 1;
            }
            match best {
                None => {
                    return Ok(head_hash);
                },
                Some(c) => {
                    if fuel == 0 {
                        return Err(Error::GraphTooDeep);
                    }
                    fuel = fuel - 1;
                    head_hash = c;
                },
            }
        }
    }
    /// The latest attestation target stored for `validator_index`, if any.
    pub fn latest_attestation_target(&self, validator_index: u64) -> (r: Option<Hash256>)
        ensures
            r == (if self@.targets.contains_key(validator_index) {
                Some(self@.targets[validator_index])
            } else {
                None::<Hash256>
            }),
    {
        match self.latest_attestation_targets.get(&validator_index) {
            Some(t) => Some(*t),
            None => None,
        }
    }

    /// The known children of `root`, in root order.
    pub fn children_of(&self, root: &Hash256) -> (r: Vec<Hash256>)
        requires
            self.well_formed(),
        ensures
            r@ == kids_of(self@.children, *root),
    {
        match self.children.get(root) {
            Some(v) => copy_roots(v),
            None => Vec::new(),
        }
    }
}

} // verus!
