//! Switch-group aggregation: pairwise "same switch" observations are merged,
//! in the order they were produced, into disjoint device groups with one
//! canonical root per group; devices seen in no connected pair end up in
//! singleton groups. The whole construction is a mathematical function of the
//! device count and the observation sequence, so a query's result is pinned
//! down completely by what the external tool printed.

use vstd::prelude::*;

use std::collections::HashMap;

use crate::lists_view;
use crate::runner::CommandRunner;
use crate::runner::QueryError;
use crate::text::pair_line_connected;

verus! {

broadcast use vstd::std_specs::hash::group_hash_axioms;

/// The aggregator's bookkeeping while observations are being merged: the
/// root of every device seen so far, the member list of every group keyed by
/// its root, and the roots in the order their groups were first discovered.
#[verifier::ext_equal]
pub ghost struct GroupState {
    pub roots: Map<usize, usize>,
    pub groups: Map<usize, Seq<usize>>,
    pub iter_order: Seq<usize>,
}

/// No observation merged yet.
pub open spec fn initial_state() -> GroupState {
    GroupState { roots: Map::empty(), groups: Map::empty(), iter_order: Seq::empty() }
}

/// One connectivity observation `(a, b)` is merged: if neither device has a
/// root yet, `a` founds a new group holding both; if only `a` is rooted, `b`
/// joins `a`'s group; otherwise the observation changes nothing. The first
/// pair seen establishes the root, so merging is order-sensitive by design,
/// and deliberately asymmetric: an observation whose first device is still
/// unrooted while its second already has a root is ignored, rather than
/// merged the other way around, to keep grouping deterministic in the probe
/// order. Under the symmetric probe order every connection is also seen with
/// the rooted device first, so no connectivity is lost.
pub open spec fn observe_spec(st: GroupState, a: usize, b: usize) -> GroupState {
    if !st.roots.contains_key(a) && !st.roots.contains_key(b) {
        GroupState {
            roots: st.roots.insert(a, a).insert(b, a),
            groups: st.groups.insert(a, seq![a, b]),
            iter_order: st.iter_order.push(a),
        }
    } else if st.roots.contains_key(a) && !st.roots.contains_key(b) {
        let r = st.roots[a];
        GroupState {
            roots: st.roots.insert(b, r),
            groups: st.groups.insert(r, st.groups[r].push(b)),
            iter_order: st.iter_order,
        }
    } else {
        st
    }
}

/// The state after merging a whole observation sequence, left to right.
pub open spec fn fold_observations(st: GroupState, obs: Seq<(usize, usize)>) -> GroupState
    decreases obs.len(),
{
    if obs.len() == 0 {
        st
    } else {
        observe_spec(fold_observations(st, obs.drop_last()), obs.last().0, obs.last().1)
    }
}

/// The state after every still-unrooted device below `upto` has been put
/// into a singleton group of its own, in ascending device order.
pub open spec fn close_singletons(st: GroupState, upto: nat) -> GroupState
    decreases upto,
{
    if upto == 0 {
        st
    } else {
        let prev = close_singletons(st, (upto - 1) as nat);
        let d = (upto - 1) as usize;
        if prev.roots.contains_key(d) {
            prev
        } else {
            GroupState {
                roots: prev.roots.insert(d, d),
                groups: prev.groups.insert(d, seq![d]),
                iter_order: prev.iter_order.push(d),
            }
        }
    }
}

/// The flattened per-device root array over the device range.
pub open spec fn ranks_of(roots: Map<usize, usize>, n: nat) -> Seq<usize> {
    Seq::new(n, |i: int| roots[i as usize])
}

/// The mathematical view of a completed topology query.
#[verifier::ext_equal]
pub ghost struct TopoView {
    pub group_iter: Seq<usize>,
    pub group_ranks: Seq<usize>,
    pub switch_groups: Map<usize, Seq<usize>>,
    pub switch_roots: Map<usize, usize>,
}

/// The topology determined by a device count and an observation sequence:
/// fold the observations, close the singletons, flatten the roots.
pub open spec fn topo_spec(n: nat, obs: Seq<(usize, usize)>) -> TopoView {
    let st = close_singletons(fold_observations(initial_state(), obs), n);
    TopoView {
        group_iter: st.iter_order,
        group_ranks: ranks_of(st.roots, n),
        switch_groups: st.groups,
        switch_roots: st.roots,
    }
}

/// Every observation names two distinct devices inside the device range.
pub open spec fn obs_ok(obs: Seq<(usize, usize)>, n: nat) -> bool {
    forall|i: int|
        0 <= i < obs.len() ==> (#[trigger] obs[i]).0 < n && obs[i].1 < n && obs[i].0 != obs[i].1
}

/// The aggregator's invariant: roots stay inside the device range and are
/// idempotent, every rooted device sits in its root's member list, member
/// lists hold exactly the devices rooted at their key without duplicates,
/// and the discovery order enumerates the group keys exactly once.
pub open spec fn state_wf(st: GroupState, n: nat) -> bool {
    &&& forall|d: usize| #[trigger] st.roots.contains_key(d) ==> d < n && st.roots[d] < n
    &&& forall|d: usize|
        #[trigger] st.roots.contains_key(d) ==> {
            let r = st.roots[d];
            &&& st.roots.contains_key(r)
            &&& st.roots[r] == r
            &&& st.groups.contains_key(r)
            &&& st.groups[r].contains(d)
        }
    &&& forall|r: usize|
        #[trigger] st.groups.contains_key(r) ==> st.roots.contains_key(r) && st.roots[r] == r
    &&& forall|r: usize, i: int|
        st.groups.contains_key(r) && 0 <= i < st.groups[r].len() ==> {
            let m = #[trigger] st.groups[r][i];
            &&& st.roots.contains_key(m)
            &&& st.roots[m] == r
        }
    &&& forall|r: usize| #[trigger] st.groups.contains_key(r) ==> st.groups[r].no_duplicates()
    &&& st.iter_order.no_duplicates()
    &&& forall|i: int|
        0 <= i < st.iter_order.len() ==> st.groups.contains_key(#[trigger] st.iter_order[i])
    &&& forall|r: usize| #[trigger] st.groups.contains_key(r) ==> st.iter_order.contains(r)
}

/// Merging one observation over two distinct in-range devices preserves the
/// aggregator's invariant.
pub proof fn lemma_observe_preserves_wf(st: GroupState, a: usize, b: usize, n: nat)
    requires
        state_wf(st, n),
        a < n,
        b < n,
        a != b,
    ensures
        state_wf(observe_spec(st, a, b), n),
{
    let st2 = observe_spec(st, a, b);
    if !st.roots.contains_key(a) && !st.roots.contains_key(b) {
        assert forall|i: int| 0 <= i < st2.iter_order.len() implies st2.groups.contains_key(
            #[trigger] st2.iter_order[i],
        ) by {
            if i < st.iter_order.len() {
                assert(st2.iter_order[i] == st.iter_order[i]);
            }
        }
        assert forall|r: usize| #[trigger] st2.groups.contains_key(r) implies st2.iter_order.contains(
            r,
        ) by {
            if r == a {
                assert(st2.iter_order.last() == a);
            } else {
                let j = choose|j: int| 0 <= j < st.iter_order.len() && st.iter_order[j] == r;
                assert(st2.iter_order[j] == r);
            }
        }
        assert(!st.iter_order.contains(a));
        assert(st2.iter_order.no_duplicates());
        assert(st2.groups[a] == seq![a, b]);
        assert forall|r: usize| #[trigger] st2.groups.contains_key(r) implies st2.groups[
            r
        ].no_duplicates() by {
            if r == a {
                assert(st2.groups[a].no_duplicates());
            }
        }
    } else if st.roots.contains_key(a) && !st.roots.contains_key(b) {
        let r = st.roots[a];
        assert(st.roots.contains_key(r) && st.roots[r] == r && st.groups.contains_key(r));
        assert(!st.groups[r].contains(b));
        let g2 = st.groups[r].push(b);
        assert forall|i: int, j: int| 0 <= i < j < g2.len() implies g2[i] != g2[j] by {
            if j < g2.len() - 1 {
                assert(st.groups[r][i] != st.groups[r][j]);
            } else {
                assert(g2[j] == b);
                assert(st.groups[r][i] != b);
            }
        }
        assert(g2.no_duplicates());
        assert forall|r2: usize| #[trigger] st2.groups.contains_key(r2) implies st2.iter_order.contains(
            r2,
        ) by {
            assert(st.groups.contains_key(r2));
        }
        assert forall|d: usize| #[trigger] st2.roots.contains_key(d) implies {
            let rd = st2.roots[d];
            &&& st2.roots.contains_key(rd)
            &&& st2.roots[rd] == rd
            &&& st2.groups.contains_key(rd)
            &&& st2.groups[rd].contains(d)
        } by {
            if d == b {
                assert(st2.roots[b] == r);
                assert(st2.groups[r][g2.len() - 1] == b);
            } else {
                let rd = st.roots[d];
                assert(st.groups[rd].contains(d));
                let j = choose|j: int| 0 <= j < st.groups[rd].len() && st.groups[rd][j] == d;
                if rd == r {
                    assert(st2.groups[r][j] == d);
                }
            }
        }
        assert forall|r2: usize, i: int|
            st2.groups.contains_key(r2) && 0 <= i < st2.groups[r2].len() implies {
            let m = #[trigger] st2.groups[r2][i];
            &&& st2.roots.contains_key(m)
            &&& st2.roots[m] == r2
        } by {
            if r2 == r && i == st2.groups[r2].len() - 1 {
                assert(st2.groups[r2][i] == b);
            } else {
                assert(st2.groups[r2][i] == st.groups[r2][i]);
            }
        }
    }
}

/// Folding a sequence of in-range observations preserves the invariant.
pub proof fn lemma_fold_wf(st: GroupState, obs: Seq<(usize, usize)>, n: nat)
    requires
        state_wf(st, n),
        obs_ok(obs, n),
    ensures
        state_wf(fold_observations(st, obs), n),
    decreases obs.len(),
{
    if obs.len() > 0 {
        assert(obs_ok(obs.drop_last(), n)) by {
            assert forall|i: int|
                0 <= i < obs.drop_last().len() implies (#[trigger] obs.drop_last()[i]).0 < n
                && obs.drop_last()[i].1 < n && obs.drop_last()[i].0 != obs.drop_last()[i].1 by {
                assert(obs.drop_last()[i] == obs[i]);
            }
        }
        lemma_fold_wf(st, obs.drop_last(), n);
        assert(obs.last() == obs[obs.len() - 1]);
        lemma_observe_preserves_wf(
            fold_observations(st, obs.drop_last()),
            obs.last().0,
            obs.last().1,
            n,
        );
    }
}

/// The singleton pass preserves the invariant.
pub proof fn lemma_close_preserves_wf(st: GroupState, n: nat, upto: nat)
    requires
        state_wf(st, n),
        upto <= n,
        n <= usize::MAX,
    ensures
        state_wf(close_singletons(st, upto), n),
    decreases upto,
{
    if upto > 0 {
        lemma_close_preserves_wf(st, n, (upto - 1) as nat);
        let prev = close_singletons(st, (upto - 1) as nat);
        let d = (upto - 1) as usize;
        if !prev.roots.contains_key(d) {
            let st2 = close_singletons(st, upto);
            assert(st2.groups[d] == seq![d]);
            assert forall|dd: usize| #[trigger] st2.roots.contains_key(dd) implies st2.groups[
                st2.roots[dd]
            ].contains(dd) by {
                if dd == d {
                    assert(st2.groups[d][0] == d);
                } else {
                    let rd = prev.roots[dd];
                    assert(prev.groups[rd].contains(dd));
                    let j = choose|j: int| 0 <= j < prev.groups[rd].len() && prev.groups[rd][j]
                        == dd;
                    assert(rd != d);
                    assert(st2.groups[rd][j] == dd);
                }
            }
            assert forall|i: int| 0 <= i < st2.iter_order.len() implies st2.groups.contains_key(
                #[trigger] st2.iter_order[i],
            ) by {
                if i < prev.iter_order.len() {
                    assert(st2.iter_order[i] == prev.iter_order[i]);
                }
            }
            assert forall|r: usize| #[trigger] st2.groups.contains_key(r) implies st2.iter_order.contains(
                r,
            ) by {
                if r == d {
                    assert(st2.iter_order.last() == d);
                } else {
                    let j = choose|j: int|
                        0 <= j < prev.iter_order.len() && prev.iter_order[j] == r;
                    assert(st2.iter_order[j] == r);
                }
            }
            assert(!prev.iter_order.contains(d));
            assert(st2.iter_order.no_duplicates());
            assert forall|r: usize| #[trigger] st2.groups.contains_key(r) implies st2.groups[
                r
            ].no_duplicates() by {
                if r == d {
                    assert(st2.groups[d].no_duplicates());
                }
            }
        }
    }
}

/// After the singleton pass up to `upto`, every device below `upto` has a
/// root, and no root assigned earlier is lost.
pub proof fn lemma_close_covers(st: GroupState, upto: nat)
    requires
        upto <= usize::MAX,
    ensures
        forall|d: usize|
            d < upto ==> #[trigger] close_singletons(st, upto).roots.contains_key(d),
        forall|d: usize|
            #[trigger] st.roots.contains_key(d) ==> close_singletons(st, upto).roots.contains_key(
                d,
            ),
    decreases upto,
{
    if upto > 0 {
        lemma_close_covers(st, (upto - 1) as nat);
        let prev = close_singletons(st, (upto - 1) as nat);
        let last = (upto - 1) as usize;
        assert forall|d: usize| d < upto implies #[trigger] close_singletons(
            st,
            upto,
        ).roots.contains_key(d) by {
            if d < upto - 1 {
                assert(prev.roots.contains_key(d));
            } else {
                assert(d == last);
            }
        }
    }
}

/// Well-formedness of a completed topology: the root lookup covers exactly
/// the device range and is idempotent, every device sits in its root's
/// member list and in no other, member lists have no duplicates, the
/// discovery order enumerates the group keys exactly once, and the flattened
/// rank array mirrors the root lookup.
pub open spec fn topo_wf(t: TopoView, n: nat) -> bool {
    &&& forall|d: usize| d < n ==> #[trigger] t.switch_roots.contains_key(d)
    &&& forall|d: usize| #[trigger] t.switch_roots.contains_key(d) ==> d < n
    &&& forall|d: usize|
        #[trigger] t.switch_roots.contains_key(d) ==> {
            let r = t.switch_roots[d];
            &&& t.switch_roots.contains_key(r)
            &&& t.switch_roots[r] == r
            &&& t.switch_groups.contains_key(r)
            &&& t.switch_groups[r].contains(d)
        }
    &&& forall|r: usize|
        #[trigger] t.switch_groups.contains_key(r) ==> r < n && t.switch_roots[r] == r
    &&& forall|r: usize, i: int|
        t.switch_groups.contains_key(r) && 0 <= i < t.switch_groups[r].len() ==> {
            let m = #[trigger] t.switch_groups[r][i];
            &&& t.switch_roots.contains_key(m)
            &&& t.switch_roots[m] == r
        }
    &&& forall|r: usize| #[trigger] t.switch_groups.contains_key(r) ==> t.switch_groups[
        r
    ].no_duplicates()
    &&& t.group_iter.no_duplicates()
    &&& forall|i: int|
        0 <= i < t.group_iter.len() ==> t.switch_groups.contains_key(#[trigger] t.group_iter[i])
    &&& forall|r: usize| #[trigger] t.switch_groups.contains_key(r) ==> t.group_iter.contains(r)
    &&& t.group_ranks.len() == n
    &&& forall|i: int| 0 <= i < n ==> t.group_ranks[i] == t.switch_roots[i as usize]
}

/// The topology built from any sequence of in-range observations is
/// well-formed.
pub proof fn lemma_topo_spec_wf(n: nat, obs: Seq<(usize, usize)>)
    requires
        obs_ok(obs, n),
        n <= usize::MAX,
    ensures
        topo_wf(topo_spec(n, obs), n),
{
    let folded = fold_observations(initial_state(), obs);
    lemma_fold_wf(initial_state(), obs, n);
    lemma_close_preserves_wf(folded, n, n);
    lemma_close_covers(folded, n);
}

/// Law: the switch groups partition the device range exactly. Every device
/// below the device count occurs in the member list of its own root, and it
/// occurs nowhere else: two occurrences of one device across all member
/// lists are the same occurrence.
pub proof fn lemma_groups_partition(
    t: TopoView,
    n: nat,
    r1: usize,
    i1: int,
    r2: usize,
    i2: int,
)
    requires
        topo_wf(t, n),
        t.switch_groups.contains_key(r1),
        0 <= i1 < t.switch_groups[r1].len(),
        t.switch_groups.contains_key(r2),
        0 <= i2 < t.switch_groups[r2].len(),
        t.switch_groups[r1][i1] == t.switch_groups[r2][i2],
    ensures
        r1 == r2,
        i1 == i2,
        forall|d: usize|
            d < n ==> t.switch_groups.contains_key(#[trigger] t.switch_roots[d])
                && t.switch_groups[t.switch_roots[d]].contains(d),
{
    let d = t.switch_groups[r1][i1];
    assert(t.switch_roots[d] == r1);
    assert(t.switch_roots[d] == r2);
    assert forall|dd: usize| dd < n implies t.switch_groups.contains_key(
        #[trigger] t.switch_roots[dd],
    ) && t.switch_groups[t.switch_roots[dd]].contains(dd) by {
        assert(t.switch_roots.contains_key(dd));
    }
}

/// Law: the root lookup is idempotent after a query completes: looking up
/// the root of a device's root gives that same root.
pub proof fn lemma_root_idempotent(t: TopoView, n: nat, d: usize)
    requires
        topo_wf(t, n),
        d < n,
    ensures
        t.switch_roots.contains_key(d),
        t.switch_roots[t.switch_roots[d]] == t.switch_roots[d],
{
    assert(t.switch_roots.contains_key(d));
    let r = t.switch_roots[d];
    assert(t.switch_roots.contains_key(r) && t.switch_roots[r] == r);
}

/// Law: the topology is a function of the device count and the observation
/// sequence alone, so repeating a query over identical captured output
/// yields an identical partition and discovery order.
pub proof fn lemma_topology_deterministic(
    t1: TopoView,
    t2: TopoView,
    n: nat,
    obs: Seq<(usize, usize)>,
)
    requires
        t1 == topo_spec(n, obs),
        t2 == topo_spec(n, obs),
    ensures
        t1 == t2,
{
}

/// The switch-group partition of the probed devices: per-device roots, the
/// member list of each group keyed by its root, the order in which groups
/// were first discovered, and the flattened per-device root array.
#[derive(Clone, Debug)]
pub struct NvsmiTopology {
    pub group_iter: Vec<usize>,
    pub group_ranks: Vec<usize>,
    pub switch_groups: HashMap<usize, Vec<usize>>,
    pub switch_roots: HashMap<usize, usize>,
}

impl View for NvsmiTopology {
    type V = TopoView;

    open spec fn view(&self) -> TopoView {
        TopoView {
            group_iter: self.group_iter@,
            group_ranks: self.group_ranks@,
            switch_groups: lists_view(self.switch_groups@),
            switch_roots: self.switch_roots@,
        }
    }
}

impl NvsmiTopology {
    /// Builds the switch-group partition from a sequence of connectivity
    /// observations, merged in the given order, then closes every unobserved
    /// device into a singleton group.
    pub fn from_observations(num_devices: usize, observations: &Vec<(usize, usize)>) -> (t:
        NvsmiTopology)
        requires
            obs_ok(observations@, num_devices as nat),
        ensures
            t@ == topo_spec(num_devices as nat, observations@),
            topo_wf(t@, num_devices as nat),
    {
        let ghost n = num_devices as nat;
        let mut switch_roots: HashMap<usize, usize> = HashMap::with_capacity(num_devices);
        let mut switch_groups: HashMap<usize, Vec<usize>> = HashMap::with_capacity(num_devices);
        let mut group_iter: Vec<usize> = Vec::new();
        proof {
            assert((GroupState {
                roots: switch_roots@,
                groups: lists_view(switch_groups@),
                iter_order: group_iter@,
            }) =~~= initial_state());
        }
        let mut k: usize = 0;
        while k < observations.len()
            invariant
                k <= observations.len(),
                obs_ok(observations@, n),
                (GroupState {
                    roots: switch_roots@,
                    groups: lists_view(switch_groups@),
                    iter_order: group_iter@,
                }) == fold_observations(initial_state(), observations@.take(k as int)),
            decreases observations.len() - k,
        {
            let ghost st_before = GroupState {
                roots: switch_roots@,
                groups: lists_view(switch_groups@),
                iter_order: group_iter@,
            };
            let (a, b) = observations[k];
            if !switch_roots.contains_key(&a) && !switch_roots.contains_key(&b) {
                switch_roots.insert(a, a);
                switch_roots.insert(b, a);
                let mut g: Vec<usize> = Vec::new();
                g.push(a);
                g.push(b);
                switch_groups.insert(a, g);
                group_iter.push(a);
            } else if switch_roots.contains_key(&a) && !switch_roots.contains_key(&b) {
                let root = *switch_roots.get(&a).unwrap();
                proof {
                    assert(st_before.groups.contains_key(root)) by {
                        lemma_fold_take_wf(observations@, k as int, n);
                    }
                }
                switch_roots.insert(b, root);
                let mut g = match switch_groups.remove(&root) {
                    Some(g) => g,
                    None => Vec::new(),
                };
                g.push(b);
                switch_groups.insert(root, g);
            }
            proof {
                assert((GroupState {
                    roots: switch_roots@,
                    groups: lists_view(switch_groups@),
                    iter_order: group_iter@,
                }) =~~= observe_spec(st_before, a, b));
                assert(observations@.take(k + 1).drop_last() =~= observations@.take(k as int));
                assert(observations@.take(k + 1).last() == observations@[k as int]);
            }
            k = k + 1;
        }
        proof {
            assert(observations@.take(observations.len() as int) =~= observations@);
        }
        let ghost folded = fold_observations(initial_state(), observations@);
        let mut node: usize = 0;
        while node < num_devices
            invariant
                node <= num_devices,
                (GroupState {
                    roots: switch_roots@,
                    groups: lists_view(switch_groups@),
                    iter_order: group_iter@,
                }) == close_singletons(folded, node as nat),
            decreases num_devices - node,
        {
            let ghost st_before = GroupState {
                roots: switch_roots@,
                groups: lists_view(switch_groups@),
                iter_order: group_iter@,
            };
            if !switch_roots.contains_key(&node) {
                switch_roots.insert(node, node);
                let mut g: Vec<usize> = Vec::new();
                g.push(node);
                switch_groups.insert(node, g);
                group_iter.push(node);
            }
            proof {
                assert((GroupState {
                    roots: switch_roots@,
                    groups: lists_view(switch_groups@),
                    iter_order: group_iter@,
                }) =~~= close_singletons(folded, (node + 1) as nat));
            }
            node = node + 1;
        }
        let ghost closed = close_singletons(folded, n);
        proof {
            lemma_fold_wf(initial_state(), observations@, n);
            lemma_close_preserves_wf(folded, n, n);
            lemma_close_covers(folded, n);
        }
        let mut group_ranks: Vec<usize> = Vec::with_capacity(num_devices);
        let mut p: usize = 0;
        while p < num_devices
            invariant
                p <= num_devices,
                switch_roots@ == closed.roots,
                n == num_devices as nat,
                closed == close_singletons(fold_observations(initial_state(), observations@), n),
                forall|d: usize| d < n ==> #[trigger] closed.roots.contains_key(d),
                group_ranks@ == ranks_of(closed.roots, p as nat),
            decreases num_devices - p,
        {
            let r = *switch_roots.get(&p).unwrap();
            group_ranks.push(r);
            proof {
                assert(group_ranks@ =~= ranks_of(closed.roots, (p + 1) as nat));
            }
            p = p + 1;
        }
        let t = NvsmiTopology { group_iter, group_ranks, switch_groups, switch_roots };
        proof {
            assert(t@ =~~= topo_spec(n, observations@));
            lemma_topo_spec_wf(n, observations@);
        }
        t
    }

    /// Probes every ordered pair of distinct devices through the runner,
    /// reading only the first line of each pairwise report, and aggregates
    /// the claimed connections into the switch-group partition. The only
    /// failure is the external command failing to run; absent connectivity
    /// evidence simply yields singleton groups.
    pub fn query<R: CommandRunner>(runner: &mut R, cmd_name: &str, num_devices: usize) -> (r:
        Result<NvsmiTopology, QueryError>)
        ensures
            (match r {
                Ok(t) => topo_wf(t@, num_devices as nat) && exists|obs: Seq<(usize, usize)>|
                    obs_ok(obs, num_devices as nat) && t@ == #[trigger] topo_spec(
                        num_devices as nat,
                        obs,
                    ),
                Err(e) => e == QueryError::ExecutionFailure,
            }),
            num_devices <= 1 ==> r is Ok,
    {
        let ghost n = num_devices as nat;
        let mut observations: Vec<(usize, usize)> = Vec::new();
        let mut node1: usize = 0;
        while node1 < num_devices
            invariant
                node1 <= num_devices,
                n == num_devices as nat,
                obs_ok(observations@, n),
            decreases num_devices - node1,
        {
            let mut node2: usize = 0;
            while node2 < num_devices
                invariant
                    node2 <= num_devices,
                    node1 < num_devices,
                    n == num_devices as nat,
                    obs_ok(observations@, n),
                decreases num_devices - node2,
            {
                if node1 != node2 {
                    let lines = match runner.pair_topology(cmd_name, node1, node2) {
                        Ok(lines) => lines,
                        Err(_) => {
                            return Err(QueryError::ExecutionFailure);
                        },
                    };
                    if lines.len() > 0 && pair_line_connected(&lines[0]) {
                        observations.push((node1, node2));
                    }
                }
                node2 = node2 + 1;
            }
            node1 = node1 + 1;
        }
        let t = Self::from_observations(num_devices, &observations);
        proof {
            assert(t@ == topo_spec(n, observations@));
        }
        Ok(t)
    }

    /// Queries the default tool, first counting the devices it lists.
    pub fn query_default<R: CommandRunner>(runner: &mut R) -> (r: Result<
        NvsmiTopology,
        QueryError,
    >)
        ensures
            (match r {
                Ok(t) => exists|n: nat, obs: Seq<(usize, usize)>|
                    topo_wf(t@, n) && obs_ok(obs, n) && t@ == #[trigger] topo_spec(n, obs),
                Err(e) => e == QueryError::ExecutionFailure,
            }),
    {
        let list = match crate::list::NvsmiList::query_default(runner) {
            Ok(list) => list,
            Err(e) => {
                return Err(e);
            },
        };
        let t = Self::query(runner, "nvidia-smi", list.num_devices)?;
        proof {
            let n0 = list.num_devices as nat;
            let obs = choose|obs: Seq<(usize, usize)>|
                obs_ok(obs, n0) && t@ == #[trigger] topo_spec(n0, obs);
            assert(topo_wf(t@, n0) && obs_ok(obs, n0) && t@ == topo_spec(n0, obs));
        }
        Ok(t)
    }

    /// How many switch groups the partition holds.
    pub fn num_groups(&self) -> (n: usize)
        ensures
            n == self@.switch_groups.dom().len(),
    {
        proof {
            assert(self.switch_groups@.dom() =~= lists_view(self.switch_groups@).dom());
        }
        self.switch_groups.len()
    }
}

/// The state folded from a prefix of in-range observations is well-formed.
pub proof fn lemma_fold_take_wf(obs: Seq<(usize, usize)>, k: int, n: nat)
    requires
        obs_ok(obs, n),
        0 <= k <= obs.len(),
    ensures
        state_wf(fold_observations(initial_state(), obs.take(k)), n),
{
    assert(obs_ok(obs.take(k), n)) by {
        assert forall|i: int|
            0 <= i < obs.take(k).len() implies (#[trigger] obs.take(k)[i]).0 < n && obs.take(
            k,
        )[i].1 < n && obs.take(k)[i].0 != obs.take(k)[i].1 by {
            assert(obs.take(k)[i] == obs[i]);
        }
    }
    lemma_fold_wf(initial_state(), obs.take(k), n);
}

} // verus!

