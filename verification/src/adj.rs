use std::collections::HashSet;
use vstd::prelude::*;
use vstd::std_specs::iter::IteratorSpec;

verus! {

broadcast use vstd::std_specs::hash::group_hash_axioms;

/// The adjacency matrix of the network, stored row by row: the cell of the
/// edge from node `i` to node `j` sits at index `i * n + j` of `data`.
/// Nodes named in `deactivated` have left the network; their edges are ignored.
#[derive(Debug)]
pub struct Adj {
    pub n: u32,
    pub data: Vec<bool>,
    pub deactivated: HashSet<u32>,
}

/// The contents of a matrix.
pub struct AdjView {
    pub n: u32,
    pub data: Seq<bool>,
    pub deactivated: Set<u32>,
}

impl Clone for Adj {
    /// An independent copy of the matrix.
    fn clone(&self) -> (res: Self)
        ensures
            res@ == self@,
            self.deactivated@.finite(),
    {
        let mut deactivated = HashSet::new();
        insert_all(&mut deactivated, &self.deactivated);
        assert(deactivated@ =~= self.deactivated@);
        let mut data: Vec<bool> = Vec::new();
        let mut i: usize = 0;
        while i < self.data.len()
            invariant
                i <= self.data@.len(),
                data@ == self.data@.take(i as int),
            decreases self.data@.len() - i,
        {
            data.push(self.data[i]);
            assert(data@ =~= self.data@.take(i as int + 1));
            i = i + 1;
        }
        assert(data@ =~= self.data@);
        Adj { n: self.n, data, deactivated }
    }
}

impl View for Adj {
    type V = AdjView;

    open spec fn view(&self) -> AdjView {
        AdjView { n: self.n, data: self.data@, deactivated: self.deactivated@ }
    }
}

/// The text that describes a matrix error.
pub open spec fn adj_error_text(e: AdjError) -> Seq<char> {
    match e {
        AdjError::NotConnected => "Adj matrix is not connected"@,
        AdjError::BadDimensions => "Adj dimensions are invalid"@,
    }
}

/// Group `c` is the first of `comps` that holds `x`.
pub open spec fn first_holds(comps: Seq<Set<u32>>, x: u32, c: int) -> bool {
    &&& 0 <= c < comps.len()
    &&& comps[c].contains(x)
    &&& forall|d: int| 0 <= d < c ==> !(#[trigger] comps[d]).contains(x)
}

/// The index of the first group of `comps` that holds `x`.
pub open spec fn first_group(comps: Seq<Set<u32>>, x: u32) -> int {
    choose|c: int| first_holds(comps, x, c)
}

/// The matrix `adj` grown to `new_n` nodes, as `expand` makes it: the cell of
/// two old nodes holds the edge `get` reads there, every other cell is empty,
/// and the new nodes start out of the network.
pub open spec fn expanded(adj: AdjView, new_n: u32) -> AdjView {
    AdjView {
        n: new_n,
        data: Seq::new(
            (new_n * new_n) as nat,
            |idx: int|
                {
                    let i = (idx / new_n as int) as u32;
                    let j = (idx % new_n as int) as u32;
                    i < adj.n && j < adj.n && adj.edge(i, j)
                },
        ),
        deactivated: adj.deactivated.union(Set::new(|k: u32| adj.n <= k < new_n)),
    }
}

/// Growing the matrix keeps the network as it was: the edges between old
/// nodes, the members, the links, what reaches what, whether it is connected,
/// and its components. The new nodes have no edges.
pub proof fn law_expand_keeps_network(adj: AdjView, new_n: u32)
    requires
        adj.n <= new_n,
        new_n * new_n <= u32::MAX,
    ensures
        forall|i: u32, j: u32| i < adj.n && j < adj.n ==> #[trigger] expanded(adj, new_n).edge(i, j) == adj.edge(i, j),
        forall|i: u32, j: u32|
            i < new_n && j < new_n && (i >= adj.n || j >= adj.n) ==> !#[trigger] expanded(adj, new_n).edge(i, j),
        forall|x: u32| #[trigger] expanded(adj, new_n).member(x) == adj.member(x),
        forall|x: u32, y: u32| #[trigger] expanded(adj, new_n).linked(x, y) == adj.linked(x, y),
        forall|x: u32, y: u32| #[trigger] expanded(adj, new_n).reaches(x, y) == adj.reaches(x, y),
        expanded(adj, new_n).connected() == adj.connected(),
        forall|comps: Seq<Set<u32>>| #[trigger] expanded(adj, new_n).is_components(comps) == adj.is_components(comps),
{
    let e = expanded(adj, new_n);
    assert forall|i: u32, j: u32| i < new_n && j < new_n implies #[trigger] e.cell(i, j) == (i != j && i < adj.n
        && j < adj.n && adj.edge(i, j)) by {
        lemma_index_fits(new_n, i, j);
        let idx = i * new_n + j;
        lemma_index_split(new_n, idx);
        let a = (idx / new_n as int) as u32;
        let b = (idx % new_n as int) as u32;
        lemma_index_injective(new_n, a, b, i, j);
    }
    assert forall|i: u32, j: u32| i < adj.n && j < adj.n implies #[trigger] e.edge(i, j) == adj.edge(i, j) by {
        assert(e.cell(i, j) == (i != j && adj.edge(i, j)));
    }
    assert forall|x: u32| #[trigger] e.member(x) == adj.member(x) by {}
    assert forall|x: u32, y: u32| #[trigger] e.linked(x, y) == adj.linked(x, y) by {
        if x < adj.n && y < adj.n {
            assert(e.edge(x, y) == adj.edge(x, y));
            assert(e.edge(y, x) == adj.edge(y, x));
        }
    }
    assert forall|p: Seq<u32>| #[trigger] e.is_path(p) == adj.is_path(p) by {
        if e.is_path(p) {
            assert forall|k: int| 0 <= k < p.len() implies adj.member(#[trigger] p[k]) by {
                assert(e.member(p[k]));
            }
            assert forall|k: int| 0 <= k < p.len() - 1 implies adj.linked(#[trigger] p[k], p[k + 1]) by {
                assert(e.linked(p[k], p[k + 1]));
            }
        }
        if adj.is_path(p) {
            assert forall|k: int| 0 <= k < p.len() implies e.member(#[trigger] p[k]) by {
                assert(adj.member(p[k]));
            }
            assert forall|k: int| 0 <= k < p.len() - 1 implies e.linked(#[trigger] p[k], p[k + 1]) by {
                assert(adj.linked(p[k], p[k + 1]));
            }
        }
    }
    assert forall|x: u32, y: u32| #[trigger] e.reaches(x, y) == adj.reaches(x, y) by {
        if e.reaches(x, y) {
            let p = choose|p: Seq<u32>| #[trigger] e.is_path(p) && p[0] == x && p.last() == y;
            assert(adj.is_path(p));
        }
        if adj.reaches(x, y) {
            let p = choose|p: Seq<u32>| #[trigger] adj.is_path(p) && p[0] == x && p.last() == y;
            assert(e.is_path(p));
        }
    }
    if adj.connected() {
        assert forall|x: u32, y: u32| e.member(x) && e.member(y) implies #[trigger] e.reaches(x, y) by {
            assert(adj.member(x) && adj.member(y));
            assert(adj.reaches(x, y));
        }
    }
    if e.connected() {
        assert forall|x: u32, y: u32| adj.member(x) && adj.member(y) implies #[trigger] adj.reaches(x, y) by {
            assert(e.member(x) && e.member(y));
            assert(e.reaches(x, y));
        }
    }
    assert forall|comps: Seq<Set<u32>>| #[trigger] e.is_components(comps) == adj.is_components(comps) by {
        if adj.is_partition(comps) {
            assert forall|c: int, x: u32| 0 <= c < comps.len() && #[trigger] comps[c].contains(x) implies e.member(x) by {
                assert(adj.member(x));
            }
            assert forall|x: u32| e.member(x) implies exists|c: int| 0 <= c < comps.len() && #[trigger] comps[c].contains(x) by {
                assert(adj.member(x));
            }
        }
        if e.is_partition(comps) {
            assert forall|c: int, x: u32| 0 <= c < comps.len() && #[trigger] comps[c].contains(x) implies adj.member(x) by {
                assert(e.member(x));
            }
            assert forall|x: u32| adj.member(x) implies exists|c: int| 0 <= c < comps.len() && #[trigger] comps[c].contains(x) by {
                assert(e.member(x));
            }
        }
        assert(e.is_partition(comps) == adj.is_partition(comps));
        assert(e.groups_connected(comps) == adj.groups_connected(comps));
        if adj.groups_closed(comps) {
            assert forall|c: int, x: u32, y: u32|
                0 <= c < comps.len() && #[trigger] comps[c].contains(x) && #[trigger] e.reaches(x, y)
                    implies comps[c].contains(y) by {
                assert(adj.reaches(x, y));
            }
        }
        if e.groups_closed(comps) {
            assert forall|c: int, x: u32, y: u32|
                0 <= c < comps.len() && #[trigger] comps[c].contains(x) && #[trigger] adj.reaches(x, y)
                    implies comps[c].contains(y) by {
                assert(e.reaches(x, y));
            }
        }
        assert(e.groups_closed(comps) == adj.groups_closed(comps));
    }
}

/// Whether the connectivity check finds the network connected: its search
/// visits `n` nodes less the number of departed ones.
pub open spec fn search_finds_all(v: AdjView) -> bool {
    v.search_count() == v.n - v.deactivated.len()
}

/// When at most `n` nodes, finitely many, have left and the connectivity
/// check does not find the network connected, some node is still active.
pub proof fn lemma_member_when_search_misses(v: AdjView)
    requires
        v.deactivated.finite(),
        v.deactivated.len() <= v.n,
        !search_finds_all(v),
    ensures
        exists|x: u32| v.member(x),
{
    if !(exists|x: u32| v.member(x)) {
        if v.first_member_below(v.n as nat) is Some {
            v.lemma_first_member_is_member(v.n as nat);
        }
        let r = Set::<u32>::range(0, v.n);
        vstd::set_lib::range_set_properties::<u32>(0, v.n);
        assert forall|k: u32| #[trigger] r.contains(k) implies v.deactivated.contains(k) by {
            assert(!v.member(k));
        }
        vstd::set_lib::lemma_len_subset(r, v.deactivated);
    }
}

/// In a matrix whose indices fit a `u32`, the cells of every node inside it fit.
pub proof fn lemma_cells_fit_inside(adj: AdjView, x: u32)
    requires
        indexable(adj.n),
        x < adj.n,
    ensures
        crate::config::cells_fit(adj, x),
{
    assert forall|j: u32| j < adj.n implies #[trigger] (x * adj.n + j) <= u32::MAX && j * adj.n + x <= u32::MAX by {
        lemma_index_fits(adj.n, x, j);
        lemma_index_fits(adj.n, j, x);
    }
}

/// Splitting an index below `n * n` into a row and a column below `n`.
pub proof fn lemma_index_split(n: u32, idx: int)
    requires
        0 <= idx < n * n,
    ensures
        0 <= idx / (n as int) < n,
        0 <= idx % (n as int) < n,
        (idx / (n as int)) * n + idx % (n as int) == idx,
{
    assert(n > 0) by (nonlinear_arith)
        requires
            0 <= idx < n * n,
    ;
    let q = idx / (n as int);
    let r = idx % (n as int);
    vstd::arithmetic::div_mod::lemma_fundamental_div_mod(idx, n as int);
    vstd::arithmetic::div_mod::lemma_mod_pos_bound(idx, n as int);
    assert(q * n + r == idx) by (nonlinear_arith)
        requires
            idx == (n as int) * q + r,
    ;
    assert(0 <= q < n) by (nonlinear_arith)
        requires
            q * n + r == idx,
            0 <= r < n,
            0 <= idx < n * n,
            n > 0,
    ;
}

/// Whether `i * n + j` cannot overflow a `u32` for any `i, j < n`.
pub open spec fn indexable(n: u32) -> bool {
    n * n <= 0x1_0000_0000
}

/// The sets held by a list of hash sets.
pub open spec fn groups_of(v: Seq<HashSet<u32>>) -> Seq<Set<u32>> {
    v.map_values(|s: HashSet<u32>| s@)
}

/// Two nodes lie in one group of `comps`.
pub open spec fn same_group(comps: Seq<Set<u32>>, x: u32, y: u32) -> bool {
    exists|c: int| 0 <= c < comps.len() && #[trigger] comps[c].contains(x) && comps[c].contains(y)
}

/// Joins group `b` into group `a` (`a < b`), moving the last group into the place of `b`.
pub open spec fn merge_groups(comps: Seq<Set<u32>>, a: int, b: int) -> Seq<Set<u32>> {
    comps.update(b, comps.last()).drop_last().update(a, comps[a].union(comps[b]))
}

/// Where group `c` of `comps` ends up after `merge_groups(comps, a, b)`.
pub open spec fn merged_index(len: int, a: int, b: int, c: int) -> int {
    if c == a || c == b {
        a
    } else if c == len - 1 {
        b
    } else {
        c
    }
}

impl Adj {

    /// Whether `other` holds the same matrix as `self`.
    pub open spec fn same_as(&self, other: &Adj) -> bool {
        &&& self.n == other.n
        &&& self.data@ == other.data@
        &&& self.deactivated@ == other.deactivated@
    }

    /// The cell from `i` to `j` of a matrix stored with `n` nodes per row.
    pub open spec fn stored(data: Seq<bool>, n: u32, i: u32, j: u32) -> bool {
        data[i * n + j]
    }

    /// Returns whether there is an edge from `i` to `j`, ignoring edges of nodes
    /// that left the network.
    pub fn get(&self, i: u32, j: u32) -> (res: bool)
        requires
            i * self.n + j <= u32::MAX,
        ensures
            res == self@.edge(i, j),
    {
        if self.is_deactivated(&i) || self.is_deactivated(&j) {
            return false;
        }
        self.get_with_deactivated(i, j)
    }

    /// Returns the stored cell from `i` to `j`, whether or not the nodes are active.
    pub fn get_with_deactivated(&self, i: u32, j: u32) -> (res: bool)
        requires
            i * self.n + j <= u32::MAX,
        ensures
            res == self@.cell(i, j),
    {
        if i == j {
            return false;
        }
        let idx = (i * self.n + j) as usize;
        if idx < self.data.len() {
            self.data[idx]
        } else {
            false
        }
    }

    /// Sets the cell from `i` to `j`; the diagonal is never set.
    pub fn set(&mut self, i: u32, j: u32, val: bool)
        requires
            i != j ==> i * old(self).n + j < old(self).data@.len(),
            i != j ==> i * old(self).n + j <= u32::MAX,
        ensures
            final(self).n == old(self).n,
            final(self).deactivated@ == old(self).deactivated@,
            i == j ==> final(self).data@ == old(self).data@,
            i != j ==> final(self).data@ == old(self).data@.update(i * old(self).n + j, val),
    {
        if i == j {
            return;
        }
        let idx = (i * self.n + j) as usize;
        self.data.set(idx, val);
    }

    /// Whether the node left the network.
    pub fn is_deactivated(&self, node_id: &u32) -> (res: bool)
        ensures
            res == self.deactivated@.contains(*node_id),
    {
        self.deactivated.contains(node_id)
    }

    /// Whether the node has not left the network.
    pub fn is_activated(&self, node_id: &u32) -> (res: bool)
        ensures
            res == self@.active(*node_id),
    {
        !self.is_deactivated(node_id)
    }

    /// Brings a node back into the network; returns whether it had left.
    pub fn activate_node(&mut self, node_id: &u32) -> (res: bool)
        ensures
            final(self).n == old(self).n,
            final(self).data@ == old(self).data@,
            final(self).deactivated@ == old(self).deactivated@.remove(*node_id),
            res == old(self).deactivated@.contains(*node_id),
    {
        self.deactivated.remove(node_id)
    }

    /// Takes a node out of the network; returns whether it was active.
    pub fn deactivate_node(&mut self, node_id: u32) -> (res: bool)
        ensures
            final(self).n == old(self).n,
            final(self).data@ == old(self).data@,
            final(self).deactivated@ == old(self).deactivated@.insert(node_id),
            res == !old(self).deactivated@.contains(node_id),
    {
        self.deactivated.insert(node_id)
    }

    /// Counts the edges into and out of `node_id`.
    pub fn node_degree(&self, node_id: u32) -> (d: u32)
        requires
            crate::config::cells_fit(self@, node_id),
        ensures
            d == self@.degree(node_id),
    {
        proof {
            if self.n > 0 {
                let last = (self.n - 1) as u32;
                assert(node_id * self@.n + last <= u32::MAX);
                assert(last * self.n + node_id <= u32::MAX);
                assert(self.n <= 0x1_0000) by (nonlinear_arith)
                    requires
                        self.n > 0,
                        (self.n - 1) * self.n <= u32::MAX,
                ;
            }
        }
        let mut d: u32 = 0;
        let mut i: u32 = 0;
        while i < self.n
            invariant
                crate::config::cells_fit(self@, node_id),
                i <= self.n,
                d == self@.degree_below(node_id, i as nat),
                d <= 2 * i,
                self.n <= 0x1_0000,
            decreases self.n - i,
        {
            proof {
                assert(node_id * self@.n + i <= u32::MAX);
            }
            if self.get(i, node_id) {
                d = d + 1;
            }
            if self.get(node_id, i) {
                d = d + 1;
            }
            i = i + 1;
        }
        d
    }

    /// Splits the active nodes into connected components: every node starts in a
    /// group of its own, and the groups of the two ends of each link are joined.
    pub fn get_components(&self) -> (res: Vec<HashSet<u32>>)
        requires
            indexable(self.n),
        ensures
            self@.is_components(groups_of(res@)),
            groups_of(res@) == self@.component_list(),
    {
        proof {
            lemma_indexable_bound(self.n);
        }
        let mut components: Vec<HashSet<u32>> = Vec::new();
        let ghost mut reps: Seq<u32> = Seq::empty();
        let mut i: u32 = 0;
        while i < self.n
            invariant
                i <= self.n,
                groups_of(components@) == self@.singleton_groups(i as nat),
                reps.len() == components@.len(),
                forall|c: int| 0 <= c < components@.len() ==> (#[trigger] components@[c])@
                    == Set::<u32>::empty().insert(reps[c]),
                forall|c: int| 0 <= c < reps.len() ==> #[trigger] reps[c] < i && self@.member(reps[c]),
                forall|x: u32| x < i && self@.member(x) ==> exists|c: int| 0 <= c < reps.len() && #[trigger] reps[c] == x,
                forall|c1: int, c2: int| 0 <= c1 < c2 < reps.len() ==> #[trigger] reps[c1] < #[trigger] reps[c2],
            decreases self.n - i,
        {
            if self.is_activated(&i) {
                let mut single = HashSet::new();
                single.insert(i);
                let ghost before = components@;
                let ghost reps0 = reps;
                components.push(single);
                proof {
                    assert(groups_of(components@) =~= groups_of(before).push(Set::<u32>::empty().insert(i)));
                    reps = reps.push(i);
                    assert(single@ =~= Set::<u32>::empty().insert(i));
                    assert forall|c: int| 0 <= c < components@.len() implies (#[trigger] components@[c])@
                        == Set::<u32>::empty().insert(reps[c]) by {
                        if c < before.len() {
                            assert(components@[c] == before[c]);
                        }
                    }
                    assert forall|x: u32| x < i + 1 && self@.member(x) implies exists|c: int|
                        0 <= c < reps.len() && #[trigger] reps[c] == x by {
                        if x == i {
                            assert(reps[reps0.len() as int] == x);
                        } else {
                            let c = choose|c: int| 0 <= c < reps0.len() && #[trigger] reps0[c] == x;
                            assert(reps[c] == x);
                        }
                    }
                }
            }
            i = i + 1;
        }
        proof {
            self@.lemma_singletons_partition(groups_of(components@), reps);
        }
        let mut i: u32 = 0;
        while i < self.n
            invariant
                indexable(self.n),
                self.n <= 0x1_0000,
                i <= self.n,
                self@.is_partition(groups_of(components@)),
                self@.groups_connected(groups_of(components@)),
                groups_of(components@) == self@.groups_after((i * self.n) as nat),
                forall|a: u32, b: u32| a < i && #[trigger] self@.linked(a, b)
                    ==> same_group(groups_of(components@), a, b),
            decreases self.n - i,
        {
            let mut j: u32 = 0;
            while j < self.n
                invariant
                    indexable(self.n),
                    self.n <= 0x1_0000,
                    i < self.n,
                    j <= self.n,
                    self@.is_partition(groups_of(components@)),
                    self@.groups_connected(groups_of(components@)),
                    groups_of(components@) == self@.groups_after((i * self.n + j) as nat),
                    forall|a: u32, b: u32| (a < i || (a == i && b < j)) && #[trigger] self@.linked(a, b)
                        ==> same_group(groups_of(components@), a, b),
                decreases self.n - j,
            {
                proof {
                    lemma_index_fits(self.n, i, j);
                    lemma_index_fits(self.n, j, i);
                    let t = i * self.n + j;
                    lemma_index_split(self.n, t);
                    lemma_index_injective(self.n, (t / (self.n as int)) as u32, (t % (self.n as int)) as u32, i, j);
                    assert(self@.groups_after((t + 1) as nat) == self@.merge_pair(self@.groups_after(t as nat), i, j));
                }
                if i == j || (!self.get(i, j) && !self.get(j, i)) {
                    j = j + 1;
                    continue;
                }
                proof {
                    assert(self@.linked(i, j));
                    assert(self@.member(i));
                    assert(self@.member(j));
                    let g = groups_of(components@);
                    let ci = choose|c: int| 0 <= c < g.len() && #[trigger] g[c].contains(i);
                    assert(components@[ci]@.contains(i));
                    let cj = choose|c: int| 0 <= c < g.len() && #[trigger] g[c].contains(j);
                    assert(components@[cj]@.contains(j));
                }
                let i_c_idx = find_group(&components, i);
                let j_c_idx = find_group(&components, j);
                if i_c_idx == j_c_idx {
                    assert(groups_of(components@)[i_c_idx as int].contains(i));
                    assert(groups_of(components@)[i_c_idx as int].contains(j));
                    j = j + 1;
                    continue;
                }
                let lesser = if i_c_idx < j_c_idx { i_c_idx } else { j_c_idx };
                let greater = if i_c_idx < j_c_idx { j_c_idx } else { i_c_idx };
                let ghost g0 = groups_of(components@);
                proof {
                    self@.lemma_merge(g0, lesser as int, greater as int, i, j);
                }
                join_groups(&mut components, lesser, greater);
                j = j + 1;
            }
            proof {
                assert(i * self.n + self.n == (i + 1) * self.n) by (nonlinear_arith);
            }
            i = i + 1;
        }
        proof {
            self@.lemma_groups_closed(groups_of(components@));
        }
        components
    }

    /// Reconnects a network that fell apart: every component other than the
    /// largest gets an edge from the node of greatest degree in the largest one to
    /// its own node of greatest degree. A connected network is left as it is.
    pub fn repair(&mut self)
        requires
            indexable(old(self).n),
            exists|x: u32| old(self)@.member(x),
            !old(self)@.connected() ==> old(self).data@.len() >= old(self).n * old(self).n,
        ensures
            final(self).n == old(self).n,
            final(self).deactivated@ == old(self).deactivated@,
            old(self)@.connected() ==> final(self).data@ == old(self).data@,
            !old(self)@.connected() ==> exists|comps: Seq<Set<u32>>, hub: int, core: u32, picks: Seq<u32>|
                #[trigger] old(self)@.repaired_by(comps, hub, core, picks, final(self).data@),
            !old(self)@.connected() ==> exists|hub: int, core: u32|
                #![trigger old(self)@.component_list()[hub].contains(core)]
                {
                    &&& 0 <= hub < old(self)@.component_list().len()
                    &&& forall|c: int|
                        0 <= c < old(self)@.component_list().len() ==> (#[trigger] old(
                            self,
                        )@.component_list()[c]).len() <= old(self)@.component_list()[hub].len()
                    &&& old(self)@.component_list()[hub].contains(core)
                    &&& forall|idx: int|
                        0 <= idx < final(self).data@.len() && #[trigger] final(self).data@[idx] != old(
                            self,
                        ).data@[idx] ==> exists|x: u32|
                            #[trigger] old(self)@.member(x) && !old(self)@.component_list()[hub].contains(x)
                                && idx == core * old(self).n + x
                },
            final(self)@.connected(),
    {
        proof {
            lemma_indexable_bound(self.n);
        }
        let components = self.get_components();
        let ghost comps = groups_of(components@);
        let ghost old_adj = *self;
        proof {
            let x = choose|x: u32| self@.member(x);
            let cx = choose|c: int| 0 <= c < comps.len() && #[trigger] comps[c].contains(x);
            assert(comps.len() >= 1);
        }
        if components.len() == 1 {
            proof {
                assert forall|x: u32, y: u32| self@.member(x) && self@.member(y) implies #[trigger] self@.reaches(x, y) by {
                    let cx = choose|c: int| 0 <= c < comps.len() && #[trigger] comps[c].contains(x);
                    let cy = choose|c: int| 0 <= c < comps.len() && #[trigger] comps[c].contains(y);
                    assert(cx == 0 && cy == 0);
                }
            }
            return;
        }
        proof {
            self@.lemma_components_split(comps);
            lemma_index_fits(self.n, 0, 0);
        }
        let mut hub: usize = 0;
        let mut k: usize = 1;
        while k < components.len()
            invariant
                comps == groups_of(components@),
                comps.len() >= 2,
                1 <= k <= comps.len(),
                hub < k,
                forall|c: int| 0 <= c < k ==> (#[trigger] comps[c]).len() <= comps[hub as int].len(),
                forall|c: int| hub < c < k ==> (#[trigger] comps[c]).len() < comps[hub as int].len(),
            decreases comps.len() - k,
        {
            if components[k].len() >= components[hub].len() {
                hub = k;
            }
            k = k + 1;
        }
        proof {
            self@.lemma_group_nonempty(comps, hub as int);
        }
        let core = self.max_degree_node(&components[hub]);
        let ghost mut picks: Seq<u32> = Seq::new(comps.len(), |c: int| core);
        let mut c: usize = 0;
        while c < components.len()
            invariant
                indexable(self.n),
                self.n == old_adj.n,
                self.deactivated@ == old_adj.deactivated@,
                old_adj@.is_components(comps),
                comps == groups_of(components@),
                comps.len() >= 2,
                hub < comps.len(),
                c <= comps.len(),
                old_adj.data@.len() >= old_adj.n * old_adj.n,
                comps[hub as int].contains(core),
                forall|y: u32| #[trigger] comps[hub as int].contains(y) ==> old_adj@.degree(y) <= old_adj@.degree(core),
                picks.len() == comps.len(),
                forall|d: int| 0 <= d < c && d != hub ==> (#[trigger] comps[d]).contains(picks[d]),
                forall|d: int, y: u32| 0 <= d < c && d != hub && #[trigger] comps[d].contains(y)
                    ==> old_adj@.degree(y) <= old_adj@.degree(picks[d]),
                old_adj@.linked_up(self.data@, hub as int, core, picks, c as int),
            decreases comps.len() - c,
        {
            if c != hub {
                proof {
                    self@.lemma_degree_kept(old_adj@, comps, hub as int, core, picks, c as int);
                    old_adj@.lemma_group_nonempty(comps, c as int);
                }
                let node = self.max_degree_node(&components[c]);
                proof {
                    assert(old_adj@.member(node));
                    assert(old_adj@.member(core));
                    lemma_index_fits(self.n, core, node);
                    lemma_index_fits(self.n, node, core);
                    assert(core != node) by {
                        assert(comps[hub as int].contains(core));
                        assert(comps[c as int].contains(node));
                        if core == node {
                            assert(comps[c as int].contains(core));
                        }
                    }
                }
                let ghost data0 = self.data@;
                let ghost picks0 = picks;
                self.set(core, node, true);
                proof {
                    picks = picks.update(c as int, node);
                    assert forall|idx: int| 0 <= idx < self.data@.len() implies #[trigger] self.data@[idx] == (old_adj.data@[idx]
                        || exists|d: int| 0 <= d < c + 1 && d != hub && idx == core * self.n + picks[d]) by {
                        if idx == core * self.n + node {
                            assert(picks[c as int] == node);
                        } else {
                            assert(self.data@[idx] == data0[idx]);
                            if exists|d: int| 0 <= d < c + 1 && d != hub && idx == core * self.n + picks[d] {
                                let d = choose|d: int| 0 <= d < c + 1 && d != hub && idx == core * self.n + picks[d];
                                assert(d != c);
                                assert(picks[d] == picks0[d]);
                            }
                            if exists|d: int| 0 <= d < c && d != hub && idx == core * self.n + picks0[d] {
                                let d = choose|d: int| 0 <= d < c && d != hub && idx == core * self.n + picks0[d];
                                assert(picks[d] == picks0[d]);
                            }
                        }
                    }
                    assert forall|d: int| 0 <= d < c + 1 && d != hub implies (#[trigger] comps[d]).contains(picks[d]) by {
                        if d < c {
                            assert(picks[d] == picks0[d]);
                        }
                    }
                    assert forall|d: int, y: u32| 0 <= d < c + 1 && d != hub && #[trigger] comps[d].contains(y)
                        implies old_adj@.degree(y) <= old_adj@.degree(picks[d]) by {
                        if d < c {
                            assert(picks[d] == picks0[d]);
                        }
                    }
                }
            }
            c = c + 1;
        }
        proof {
            assert(old_adj@.repaired_by(comps, hub as int, core, picks, self.data@));
            old_adj@.lemma_repair_connects(comps, hub as int, core, picks, self@);
            law_repair_links_largest(old_adj@, comps, hub as int, core, picks, self.data@);
            assert(old_adj@.component_list()[hub as int].contains(core));
        }
    }

    /// The node of greatest degree in `group` (the last such, in iteration order).
    fn max_degree_node(&self, group: &HashSet<u32>) -> (res: u32)
        requires
            indexable(self.n),
            group@.finite(),
            group@.len() > 0,
            forall|y: u32| #[trigger] group@.contains(y) ==> y < self.n,
        ensures
            group@.contains(res),
            forall|y: u32| #[trigger] group@.contains(y) ==> self@.degree(y) <= self@.degree(res),
    {
        let keys_iter = group.iter();
        let ghost keys = keys_iter.remaining().unref();
        assert(keys.to_set() == group@);
        let mut best: u32 = 0;
        let mut best_deg: u32 = 0;
        let mut have = false;
        for x in it: keys_iter
            invariant
                indexable(self.n),
                it.seq().unref() == keys,
                keys.to_set() == group@,
                forall|y: u32| #[trigger] group@.contains(y) ==> y < self.n,
                have ==> keys.take(it.index() as int).contains(best),
                have <==> it.index() > 0,
                have ==> best_deg == self@.degree(best),
                forall|k: int| 0 <= k < it.index() ==> self@.degree(#[trigger] keys[k]) <= best_deg,
        {
            assert(keys[it.index() as int] == *x);
            assert(group@.contains(*x));
            proof {
                lemma_cells_fit_inside(self@, *x);
            }
            let d = self.node_degree(*x);
            if !have || d >= best_deg {
                best = *x;
                best_deg = d;
                have = true;
            }
            assert(keys.take(it.index() as int + 1).contains(best)) by {
                if best == *x {
                    assert(keys.take(it.index() as int + 1)[it.index() as int] == best);
                } else {
                    let k = choose|k: int| 0 <= k < it.index() && keys.take(it.index() as int)[k] == best;
                    assert(keys.take(it.index() as int + 1)[k] == best);
                }
            }
        }
        proof {
            let y = group@.choose();
            assert(keys.to_set().contains(y));
            assert(keys.len() > 0);
            assert(keys.take(keys.len() as int) =~= keys);
            assert forall|y: u32| #[trigger] group@.contains(y) implies self@.degree(y) <= self@.degree(best) by {
                assert(keys.to_set().contains(y));
                let k = choose|k: int| 0 <= k < keys.len() && keys[k] == y;
            }
        }
        best
    }

    /// Grows the matrix to `new_n` nodes. The old edges keep their place, every
    /// new cell is empty, and the new nodes start out of the network.
    pub fn expand(&self, new_n: u32) -> (res: Adj)
        requires
            self.n <= new_n,
            new_n * new_n <= u32::MAX,
        ensures
            res.n == new_n,
            res.data@.len() == new_n * new_n,
            forall|i: u32, j: u32| i < new_n && j < new_n ==> #[trigger] Adj::stored(res.data@, new_n, i, j)
                == (i < self.n && j < self.n && self@.edge(i, j)),
            res.deactivated@ == self.deactivated@.union(Set::new(|k: u32| self.n <= k < new_n)),
            res@ == expanded(self@, new_n),
    {
        let mut data = vec![false; (new_n * new_n) as usize];
        proof {
            assert forall|a: u32, b: u32| a < new_n && b < new_n implies !#[trigger] Adj::stored(data@, new_n, a, b) by {
                lemma_index_fits(new_n, a, b);
                assert(cloned(false, data@[a * new_n + b]));
            }
        }
        let mut i: u32 = 0;
        while i < self.n
            invariant
                self.n <= new_n,
                new_n * new_n <= u32::MAX,
                i <= self.n,
                data@.len() == new_n * new_n,
                forall|a: u32, b: u32| a < new_n && b < new_n ==> #[trigger] Adj::stored(data@, new_n, a, b)
                    == (a < i && b < self.n && self@.edge(a, b)),
            decreases self.n - i,
        {
            let mut j: u32 = 0;
            while j < self.n
                invariant
                    self.n <= new_n,
                    new_n * new_n <= u32::MAX,
                    i < self.n,
                    j <= self.n,
                    data@.len() == new_n * new_n,
                    forall|a: u32, b: u32| a < new_n && b < new_n ==> #[trigger] Adj::stored(data@, new_n, a, b)
                        == ((a < i || (a == i && b < j)) && b < self.n && self@.edge(a, b)),
                decreases self.n - j,
            {
                proof {
                    lemma_index_fits(new_n, i, j);
                    lemma_index_fits(self.n, i, j);
                    assert(self.n * self.n <= new_n * new_n) by (nonlinear_arith)
                        requires self.n <= new_n;
                }
                let ghost d0 = data@;
                let v = self.get(i, j);
                data.set((i * new_n + j) as usize, v);
                proof {
                    assert forall|a: u32, b: u32| a < new_n && b < new_n implies #[trigger] Adj::stored(data@, new_n, a, b)
                        == ((a < i || (a == i && b < j + 1)) && b < self.n && self@.edge(a, b)) by {
                        lemma_index_fits(new_n, a, b);
                        if a == i && b == j {
                        } else {
                            if a * new_n + b == i * new_n + j {
                                lemma_index_injective(new_n, a, b, i, j);
                            }
                            assert(Adj::stored(d0, new_n, a, b) == Adj::stored(data@, new_n, a, b));
                        }
                    }
                }
                j = j + 1;
            }
            i = i + 1;
        }
        let mut deactivated = HashSet::new();
        insert_all(&mut deactivated, &self.deactivated);
        let mut k: u32 = self.n;
        while k < new_n
            invariant
                self.n <= k <= new_n,
                deactivated@ == self.deactivated@.union(Set::new(|m: u32| self.n <= m < k)),
            decreases new_n - k,
        {
            deactivated.insert(k);
            assert(deactivated@ =~= self.deactivated@.union(Set::new(|m: u32| self.n <= m < k + 1)));
            k = k + 1;
        }
        let res = Adj { n: new_n, data, deactivated };
        proof {
            let e = expanded(self@, new_n);
            assert forall|idx: int| 0 <= idx < res.data@.len() implies res.data@[idx] == e.data[idx] by {
                lemma_index_split(new_n, idx);
                let i = (idx / new_n as int) as u32;
                let j = (idx % new_n as int) as u32;
                assert(i * new_n + j == idx);
                assert(Adj::stored(res.data@, new_n, i, j) == (i < self.n && j < self.n && self@.edge(i, j)));
            }
            assert(res.data@ =~= e.data);
            assert(res.deactivated@ =~= e.deactivated);
        }
        res
    }

    /// Checks that the active nodes form one connected network: a search from
    /// the least active node must visit as many nodes as the matrix has, less
    /// those that left.
    pub fn is_connected(&self) -> (res: bool)
        requires
            indexable(self.n),
            self.deactivated@.len() <= self.n,
        ensures
            res == (self@.search_count() == self.n - self.deactivated@.len()),
            self@.departures_in_range() ==> (res == self@.connected()),
    {
        proof {
            lemma_indexable_bound(self.n);
            if self@.departures_in_range() {
                self@.lemma_search_count_connected();
            }
        }
        let mut seen = HashSet::<u32>::new();
        let mut queue = Vec::<u32>::with_capacity(self.n as usize);
        let mut i: u32 = 0;
        let mut found = false;
        while i < self.n && !found
            invariant
                i <= self.n,
                self@.first_member_below(i as nat) is None,
                !found ==> seen@ == Set::<u32>::empty() && queue@ == Seq::<u32>::empty(),
                found ==> i < self.n && self@.member(i) && seen@ == Set::<u32>::empty().insert(i)
                    && queue@ == seq![i],
            decreases self.n - i, if found { 0int } else { 1int },
        {
            if self.is_activated(&i) {
                queue.push(i);
                seen.insert(i);
                found = true;
            } else {
                i = i + 1;
            }
        }
        let ghost start: Option<u32> = if found { Some(i) } else { None };
        proof {
            if found {
                assert(self@.first_member_below((i + 1) as nat) == Some(i));
                self@.lemma_first_member_stable((i + 1) as nat, self.n as nat);
                self@.lemma_reaches_self(i);
                assert(queue@[0] == i);
            }
            assert(seen@.subset_of(Set::<u32>::range(0, self.n)));
            vstd::set_lib::range_set_properties::<u32>(0, self.n);
            vstd::set_lib::lemma_len_subset(seen@, Set::<u32>::range(0, self.n));
        }
        assert(start == self@.first_member_below(self.n as nat));
        while queue.len() > 0
            invariant
                indexable(self.n),
                self.n <= 0x1_0000,
                start == self@.first_member_below(self.n as nat),
                start is None ==> seen@ == Set::<u32>::empty() && queue@ == Seq::<u32>::empty(),
                start matches Some(s) ==> seen@.contains(s),
                start matches Some(s) ==> forall|y: u32| #[trigger] seen@.contains(y) ==> self@.reaches(s, y),
                seen@.subset_of(Set::<u32>::range(0, self.n)),
                seen@.finite(),
                seen@.len() <= self.n,
                forall|k: int| 0 <= k < queue@.len() ==> seen@.contains(#[trigger] queue@[k]),
                queue@.no_duplicates(),
                forall|x: u32| #[trigger] seen@.contains(x) ==> queue@.contains(x) || self@.closed_at(x, seen@),
            decreases self.n - seen@.len(), queue@.len(),
        {
            let ghost seen0 = seen@;
            let ghost queue0 = queue@;
            let i = queue.pop().unwrap();
            let ghost queue1 = queue@;
            let ghost s = start->0;
            assert(queue0.last() == i);
            assert(queue1 =~= queue0.drop_last());
            proof {
                assert(seen@.contains(i));
                assert(!queue1.contains(i)) by {
                    if queue1.contains(i) {
                        let k = choose|k: int| 0 <= k < queue1.len() && queue1[k] == i;
                        assert(queue0[k] == queue0[queue0.len() - 1]);
                    }
                }
                assert(self@.reaches(s, i));
                assert forall|x: u32| #[trigger] seen@.contains(x) implies x == i || queue@.contains(x)
                    || self@.closed_at(x, seen@) by {
                    if x != i && queue0.contains(x) {
                        let k = choose|k: int| 0 <= k < queue0.len() && queue0[k] == x;
                        assert(queue1[k] == x);
                    }
                }
            }
            let mut j: u32 = 0;
            while j < self.n
                invariant
                    indexable(self.n),
                    self.n <= 0x1_0000,
                    start == Some(s),
                    j <= self.n,
                    i < self.n,
                    seen@.contains(s),
                    seen@.contains(i),
                    self@.reaches(s, i),
                    forall|y: u32| #[trigger] seen@.contains(y) ==> self@.reaches(s, y),
                    seen@.subset_of(Set::<u32>::range(0, self.n)),
                    seen@.finite(),
                    seen0.subset_of(seen@),
                    seen@.len() - seen0.len() == queue@.len() - queue1.len(),
                    queue@.len() >= queue1.len(),
                    forall|k: int| 0 <= k < queue1.len() ==> queue@[k] == queue1[k],
                    forall|k: int| 0 <= k < queue@.len() ==> seen@.contains(#[trigger] queue@[k]),
                    queue@.no_duplicates(),
                    forall|x: u32| #[trigger] seen@.contains(x) ==> x == i || queue@.contains(x) || self@.closed_at(x, seen@),
                    forall|y: u32| y < j && #[trigger] self@.linked(i, y) ==> seen@.contains(y),
                decreases self.n - j,
            {
                proof {
                    lemma_index_fits(self.n, i, j);
                    lemma_index_fits(self.n, j, i);
                }
                if i != j && !seen.contains(&j) && (self.get(i, j) || self.get(j, i)) {
                    let ghost seen_before = seen@;
                    let ghost queue_before = queue@;
                    proof {
                        assert(self@.linked(i, j));
                        self@.lemma_reaches_step(s, i, j);
                    }
                    seen.insert(j);
                    queue.push(j);
                    proof {
                        assert(queue@ =~= queue_before.push(j));
                        assert forall|k: int| 0 <= k < queue@.len() implies seen@.contains(#[trigger] queue@[k]) by {
                            if k < queue_before.len() {
                                assert(queue@[k] == queue_before[k]);
                            }
                        }
                        assert(!queue_before.contains(j));
                        assert(queue@.no_duplicates()) by {
                            assert forall|a: int, b: int| 0 <= a < queue@.len() && 0 <= b < queue@.len() && a != b
                                implies queue@[a] != queue@[b] by {
                                if a < queue_before.len() && b < queue_before.len() {
                                } else if a < queue_before.len() {
                                    assert(queue@[a] == queue_before[a]);
                                } else if b < queue_before.len() {
                                    assert(queue@[b] == queue_before[b]);
                                }
                            }
                        }
                        assert forall|x: u32| #[trigger] seen@.contains(x) implies x == i || queue@.contains(x)
                            || self@.closed_at(x, seen@) by {
                            if x == j {
                                assert(queue@[queue@.len() - 1] == j);
                            } else if x != i {
                                assert(seen_before.contains(x));
                                if queue_before.contains(x) {
                                    let k = choose|k: int| 0 <= k < queue_before.len() && queue_before[k] == x;
                                    assert(queue@[k] == x);
                                }
                            }
                        }
                        assert(seen@.subset_of(Set::<u32>::range(0, self.n)));
                    }
                }
                j = j + 1;
            }
            proof {
                assert(self@.closed_at(i, seen@));
                assert forall|k: int| 0 <= k < queue@.len() implies seen@.contains(#[trigger] queue@[k]) by {}
                vstd::set_lib::range_set_properties::<u32>(0, self.n);
                vstd::set_lib::lemma_len_subset(seen@, Set::<u32>::range(0, self.n));
                vstd::set_lib::lemma_len_subset(seen0, seen@);
            }
        }
        proof {
            if let Some(s) = start {
                assert forall|y: u32| self@.reaches(s, y) implies seen@.contains(y) by {
                    self@.lemma_closed_contains_reach(seen@, s, y);
                }
                assert(seen@ =~= self@.reach_set(s));
            }
        }
        let required_count = self.n as usize - self.deactivated.len();
        seen.len() == required_count
    }
}

impl AdjView {
    /// The stored cell from `i` to `j`: never set on the diagonal, false past the end of `data`.
    pub open spec fn cell(&self, i: u32, j: u32) -> bool {
        let idx = i * self.n + j;
        i != j && idx < self.data.len() && self.data[idx]
    }

    /// A node that has not left the network.
    pub open spec fn active(&self, i: u32) -> bool {
        !self.deactivated.contains(i)
    }

    /// The directed edge from `i` to `j`, as `get` reads it.
    pub open spec fn edge(&self, i: u32, j: u32) -> bool {
        self.active(i) && self.active(j) && self.cell(i, j)
    }

    /// An active node of the matrix.
    pub open spec fn member(&self, i: u32) -> bool {
        i < self.n && self.active(i)
    }

    /// Two nodes of the matrix joined by an edge in either direction
    /// (connections are bidirectional).
    pub open spec fn linked(&self, i: u32, j: u32) -> bool {
        i < self.n && j < self.n && (self.edge(i, j) || self.edge(j, i))
    }

    /// A walk through active nodes along links.
    pub open spec fn is_path(&self, p: Seq<u32>) -> bool {
        &&& p.len() >= 1
        &&& forall|k: int| 0 <= k < p.len() ==> self.member(#[trigger] p[k])
        &&& forall|k: int| 0 <= k < p.len() - 1 ==> self.linked(#[trigger] p[k], p[k + 1])
    }

    /// `y` can be reached from `x` through the network.
    pub open spec fn reaches(&self, x: u32, y: u32) -> bool {
        exists|p: Seq<u32>| #[trigger] self.is_path(p) && p[0] == x && p.last() == y
    }

    /// Every active node can reach every other one.
    pub open spec fn connected(&self) -> bool {
        forall|x: u32, y: u32| self.member(x) && self.member(y) ==> #[trigger] self.reaches(x, y)
    }

    /// The nodes reachable from `x`.
    pub open spec fn reach_set(&self, x: u32) -> Set<u32> {
        Set::new(|y: u32| self.reaches(x, y))
    }

    /// The least active node below `k`, if any.
    pub open spec fn first_member_below(&self, k: nat) -> Option<u32>
        decreases k,
    {
        if k == 0 {
            None
        } else {
            match self.first_member_below((k - 1) as nat) {
                Some(i) => Some(i),
                None => if self.member((k - 1) as u32) {
                    Some((k - 1) as u32)
                } else {
                    None
                },
            }
        }
    }

    /// The number of nodes the connectivity search visits: those reachable
    /// from the least active node, none if there is no active node.
    pub open spec fn search_count(&self) -> nat {
        match self.first_member_below(self.n as nat) {
            Some(s) => self.reach_set(s).len(),
            None => 0,
        }
    }

    /// The number of links of `node` counted over `0..k`, in both directions.
    pub open spec fn degree_below(&self, node: u32, k: nat) -> nat
        decreases k,
    {
        if k == 0 {
            0
        } else {
            let i = (k - 1) as u32;
            self.degree_below(node, (k - 1) as nat)
                + (if self.edge(i, node) { 1nat } else { 0nat })
                + (if self.edge(node, i) { 1nat } else { 0nat })
        }
    }

    /// The degree of `node`: its incoming plus its outgoing edges.
    pub open spec fn degree(&self, node: u32) -> nat {
        self.degree_below(node, self.n as nat)
    }

    /// The groups the component search starts with: one group for each active
    /// node below `k`, in increasing order.
    pub open spec fn singleton_groups(&self, k: nat) -> Seq<Set<u32>>
        decreases k,
    {
        if k == 0 {
            Seq::empty()
        } else {
            let prev = self.singleton_groups((k - 1) as nat);
            if self.member((k - 1) as u32) {
                prev.push(Set::<u32>::empty().insert((k - 1) as u32))
            } else {
                prev
            }
        }
    }

    /// The groups after the search looks at the cells from `i` to `j` and back:
    /// when they hold an edge and `i` and `j` lie in different groups, the
    /// later of the two groups is joined into the earlier one.
    pub open spec fn merge_pair(&self, comps: Seq<Set<u32>>, i: u32, j: u32) -> Seq<Set<u32>> {
        if i == j || !(self.edge(i, j) || self.edge(j, i)) {
            comps
        } else {
            let a = first_group(comps, i);
            let b = first_group(comps, j);
            if a == b {
                comps
            } else if a < b {
                merge_groups(comps, a, b)
            } else {
                merge_groups(comps, b, a)
            }
        }
    }

    /// The groups after the search looked at the first `t` pairs of nodes, row
    /// by row: pair `t` is `(t / n, t % n)`.
    pub open spec fn groups_after(&self, t: nat) -> Seq<Set<u32>>
        decreases t,
    {
        if t == 0 {
            self.singleton_groups(self.n as nat)
        } else {
            self.merge_pair(
                self.groups_after((t - 1) as nat),
                ((t - 1) / (self.n as int)) as u32,
                ((t - 1) % (self.n as int)) as u32,
            )
        }
    }

    /// The components as `get_components` lists them.
    pub open spec fn component_list(&self) -> Seq<Set<u32>> {
        self.groups_after((self.n * self.n) as nat)
    }

    /// `comps` splits the active nodes into disjoint, finite, non-empty groups.
    pub open spec fn is_partition(&self, comps: Seq<Set<u32>>) -> bool {
        &&& forall|c: int| 0 <= c < comps.len() ==> #[trigger] comps[c].finite() && comps[c].len() > 0
        &&& forall|c: int, x: u32| 0 <= c < comps.len() && #[trigger] comps[c].contains(x) ==> self.member(x)
        &&& forall|x: u32| self.member(x) ==> exists|c: int| 0 <= c < comps.len() && #[trigger] comps[c].contains(x)
        &&& forall|c1: int, c2: int, x: u32|
            0 <= c1 < comps.len() && 0 <= c2 < comps.len() && #[trigger] comps[c1].contains(x)
                && #[trigger] comps[c2].contains(x) ==> c1 == c2
    }

    /// Every group only holds nodes that reach each other.
    pub open spec fn groups_connected(&self, comps: Seq<Set<u32>>) -> bool {
        forall|c: int, x: u32, y: u32|
            0 <= c < comps.len() && #[trigger] comps[c].contains(x) && #[trigger] comps[c].contains(y)
                ==> self.reaches(x, y)
    }

    /// Every group holds all the nodes its members reach.
    pub open spec fn groups_closed(&self, comps: Seq<Set<u32>>) -> bool {
        forall|c: int, x: u32, y: u32|
            0 <= c < comps.len() && #[trigger] comps[c].contains(x) && #[trigger] self.reaches(x, y)
                ==> comps[c].contains(y)
    }

    /// `comps` lists the connected components of the network, each once.
    pub open spec fn is_components(&self, comps: Seq<Set<u32>>) -> bool {
        &&& self.is_partition(comps)
        &&& self.groups_connected(comps)
        &&& self.groups_closed(comps)
    }

    /// Singleton groups of distinct active nodes, one per active node, form a partition.
    proof fn lemma_singletons_partition(&self, comps: Seq<Set<u32>>, reps: Seq<u32>)
        requires
            reps.len() == comps.len(),
            forall|c: int| 0 <= c < comps.len() ==> #[trigger] comps[c] == Set::<u32>::empty().insert(reps[c]),
            forall|c: int| 0 <= c < reps.len() ==> self.member(#[trigger] reps[c]),
            forall|x: u32| x < self.n && self.member(x) ==> exists|c: int| 0 <= c < reps.len() && #[trigger] reps[c] == x,
            forall|c1: int, c2: int| 0 <= c1 < c2 < reps.len() ==> #[trigger] reps[c1] < #[trigger] reps[c2],
        ensures
            self.is_partition(comps),
            self.groups_connected(comps),
    {
        assert forall|c: int| 0 <= c < comps.len() implies #[trigger] comps[c].finite() && comps[c].len() > 0 by {
            assert(comps[c] == Set::<u32>::empty().insert(reps[c]));
        }
        assert forall|c: int, x: u32| 0 <= c < comps.len() && #[trigger] comps[c].contains(x) implies self.member(x) by {
            assert(comps[c] == Set::<u32>::empty().insert(reps[c]));
            assert(self.member(reps[c]));
        }
        assert forall|x: u32| self.member(x) implies exists|c: int| 0 <= c < comps.len() && #[trigger] comps[c].contains(x) by {
            let c = choose|c: int| 0 <= c < reps.len() && #[trigger] reps[c] == x;
            assert(comps[c] == Set::<u32>::empty().insert(reps[c]));
            assert(comps[c].contains(x));
        }
        assert forall|c1: int, c2: int, x: u32|
            0 <= c1 < comps.len() && 0 <= c2 < comps.len() && #[trigger] comps[c1].contains(x)
                && #[trigger] comps[c2].contains(x) implies c1 == c2 by {
            assert(comps[c1] == Set::<u32>::empty().insert(reps[c1]));
            assert(comps[c2] == Set::<u32>::empty().insert(reps[c2]));
            if c1 < c2 {
                assert(reps[c1] < reps[c2]);
            } else if c2 < c1 {
                assert(reps[c2] < reps[c1]);
            }
        }
        assert forall|c: int, x: u32, y: u32|
            0 <= c < comps.len() && #[trigger] comps[c].contains(x) && #[trigger] comps[c].contains(y)
                implies self.reaches(x, y) by {
            assert(comps[c] == Set::<u32>::empty().insert(reps[c]));
            assert(self.member(reps[c]));
            self.lemma_reaches_self(x);
        }
    }

    /// Joining the groups of the two ends of a link keeps a connected partition,
    /// keeps nodes of one group together, and puts the two ends together.
    proof fn lemma_merge(&self, comps: Seq<Set<u32>>, a: int, b: int, i: u32, j: u32)
        requires
            self.is_partition(comps),
            self.groups_connected(comps),
            0 <= a < b < comps.len(),
            (comps[a].contains(i) && comps[b].contains(j)) || (comps[a].contains(j) && comps[b].contains(i)),
            self.linked(i, j),
        ensures
            self.is_partition(merge_groups(comps, a, b)),
            self.groups_connected(merge_groups(comps, a, b)),
            forall|x: u32, y: u32| #[trigger] same_group(comps, x, y) ==> same_group(merge_groups(comps, a, b), x, y),
            same_group(merge_groups(comps, a, b), i, j),
    {
        let m = merge_groups(comps, a, b);
        let len = comps.len() as int;
        assert(m.len() == len - 1);
        assert forall|c: int| 0 <= c < len implies #[trigger] comps[c].subset_of(m[merged_index(len, a, b, c)]) by {}
        assert forall|c2: int| 0 <= c2 < m.len() implies (c2 == a && #[trigger] m[c2] == comps[a].union(comps[b]))
            || (c2 == b && m[c2] == comps[len - 1]) || (c2 != a && c2 != b && m[c2] == comps[c2]) by {}
        // groups are finite and non-empty
        assert forall|c: int| 0 <= c < m.len() implies #[trigger] m[c].finite() && m[c].len() > 0 by {
            if c == a {
                self.lemma_group_nonempty(comps, a);
                self.lemma_group_nonempty(comps, b);
                vstd::set_lib::lemma_set_union_finite_iff(comps[a], comps[b]);
                assert(comps[a].union(comps[b]).finite());
                assert(m[c] == comps[a].union(comps[b]));
                vstd::set_lib::lemma_len_subset(comps[a], comps[a].union(comps[b]));
            } else if c == b {
                assert(m[c] == comps[len - 1]);
                self.lemma_group_nonempty(comps, len - 1);
            } else {
                assert(m[c] == comps[c]);
                self.lemma_group_nonempty(comps, c);
            }
        }
        assert forall|c: int, x: u32| 0 <= c < m.len() && #[trigger] m[c].contains(x) implies self.member(x) by {
            if c == a {
                if comps[a].contains(x) {
                } else {
                    assert(comps[b].contains(x));
                }
            }
        }
        assert forall|x: u32| self.member(x) implies exists|c: int| 0 <= c < m.len() && #[trigger] m[c].contains(x) by {
            let c = choose|c: int| 0 <= c < comps.len() && #[trigger] comps[c].contains(x);
            assert(comps[c].subset_of(m[merged_index(len, a, b, c)]));
            assert(m[merged_index(len, a, b, c)].contains(x));
        }
        assert forall|c1: int, c2: int, x: u32|
            0 <= c1 < m.len() && 0 <= c2 < m.len() && #[trigger] m[c1].contains(x)
                && #[trigger] m[c2].contains(x) implies c1 == c2 by {
            let o1 = if c1 == a { if comps[a].contains(x) { a } else { b } } else if c1 == b { len - 1 } else { c1 };
            let o2 = if c2 == a { if comps[a].contains(x) { a } else { b } } else if c2 == b { len - 1 } else { c2 };
            assert(comps[o1].contains(x));
            assert(comps[o2].contains(x));
        }
        // the joined group is connected through the link
        let (ia, jb) = if comps[a].contains(i) { (i, j) } else { (j, i) };
        assert(self.linked(ia, jb));
        assert forall|c: int, x: u32, y: u32|
            0 <= c < m.len() && #[trigger] m[c].contains(x) && #[trigger] m[c].contains(y)
                implies self.reaches(x, y) by {
            if c == a {
                if comps[a].contains(x) && comps[b].contains(y) {
                    assert(self.reaches(x, ia));
                    self.lemma_reaches_step(x, ia, jb);
                    assert(self.reaches(jb, y));
                    self.lemma_reaches_trans(x, jb, y);
                } else if comps[b].contains(x) && comps[a].contains(y) {
                    assert(self.reaches(y, ia));
                    self.lemma_reaches_step(y, ia, jb);
                    assert(self.reaches(jb, x));
                    self.lemma_reaches_trans(y, jb, x);
                    self.lemma_reaches_symmetric(y, x);
                } else if comps[a].contains(x) {
                    assert(comps[a].contains(y));
                } else {
                    assert(comps[b].contains(x));
                    assert(comps[b].contains(y));
                }
            } else if c == b {
                assert(comps[len - 1].contains(x));
                assert(comps[len - 1].contains(y));
            } else {
                assert(comps[c].contains(x));
                assert(comps[c].contains(y));
            }
        }
        assert forall|x: u32, y: u32| #[trigger] same_group(comps, x, y) implies same_group(m, x, y) by {
            let c = choose|c: int| 0 <= c < comps.len() && #[trigger] comps[c].contains(x) && comps[c].contains(y);
            let c2 = merged_index(len, a, b, c);
            assert(comps[c].subset_of(m[c2]));
            assert(m[c2].contains(x));
        }
        assert(m[a].contains(i) && m[a].contains(j));
    }

    /// A partition in which both ends of every link share a group keeps
    /// everything a node reaches in its group.
    proof fn lemma_groups_closed(&self, comps: Seq<Set<u32>>)
        requires
            self.is_partition(comps),
            forall|a: u32, b: u32| a < self.n && #[trigger] self.linked(a, b) ==> same_group(comps, a, b),
        ensures
            self.groups_closed(comps),
    {
        assert forall|c: int, x: u32, y: u32|
            0 <= c < comps.len() && #[trigger] comps[c].contains(x) && #[trigger] self.reaches(x, y)
                implies comps[c].contains(y) by {
            let p = choose|p: Seq<u32>| #[trigger] self.is_path(p) && p[0] == x && p.last() == y;
            self.lemma_group_holds_path(comps, c, p, p.len() - 1);
        }
    }

    /// A walk that starts in a group stays in it up to step `k`, when both ends of
    /// every link share a group.
    proof fn lemma_group_holds_path(&self, comps: Seq<Set<u32>>, c: int, p: Seq<u32>, k: int)
        requires
            self.is_partition(comps),
            forall|a: u32, b: u32| a < self.n && #[trigger] self.linked(a, b) ==> same_group(comps, a, b),
            0 <= c < comps.len(),
            self.is_path(p),
            comps[c].contains(p[0]),
            0 <= k < p.len(),
        ensures
            comps[c].contains(p[k]),
        decreases k,
    {
        if k > 0 {
            self.lemma_group_holds_path(comps, c, p, k - 1);
            assert(self.linked(p[k - 1], p[k]));
            assert(same_group(comps, p[k - 1], p[k]));
            let c2 = choose|c2: int| 0 <= c2 < comps.len() && #[trigger] comps[c2].contains(p[k - 1]) && comps[c2].contains(p[k]);
            assert(c2 == c);
        }
    }

    /// `data` is this matrix's data with the cell from `core` to `picks[c]` set
    /// for every group `c` other than `hub` (for `c < upto`).
    pub open spec fn linked_up(&self, data: Seq<bool>, hub: int, core: u32, picks: Seq<u32>, upto: int) -> bool {
        &&& data.len() == self.data.len()
        &&& forall|idx: int| 0 <= idx < data.len() ==> #[trigger] data[idx] == (self.data[idx] || exists|c: int|
            0 <= c < upto && c != hub && idx == core * self.n + picks[c])
    }

    /// How `repair` reconnects the network: `comps` are its components in the
    /// order `get_components` lists them, `hub` the last of the largest, `core` a node of greatest degree in it, and
    /// `picks[c]` a node of greatest degree in each other component `c`; an edge
    /// from `core` to every pick is added to `data`.
    pub open spec fn repaired_by(&self, comps: Seq<Set<u32>>, hub: int, core: u32, picks: Seq<u32>, data: Seq<bool>) -> bool {
        &&& comps == self.component_list()
        &&& self.is_components(comps)
        &&& 0 <= hub < comps.len()
        &&& forall|c: int| 0 <= c < comps.len() ==> (#[trigger] comps[c]).len() <= comps[hub].len()
        &&& forall|c: int| hub < c < comps.len() ==> (#[trigger] comps[c]).len() < comps[hub].len()
        &&& comps[hub].contains(core)
        &&& forall|y: u32| #[trigger] comps[hub].contains(y) ==> self.degree(y) <= self.degree(core)
        &&& picks.len() == comps.len()
        &&& forall|c: int| 0 <= c < comps.len() && c != hub ==> (#[trigger] comps[c]).contains(picks[c])
        &&& forall|c: int, y: u32| 0 <= c < comps.len() && c != hub && #[trigger] comps[c].contains(y)
            ==> self.degree(y) <= self.degree(picks[c])
        &&& self.linked_up(data, hub, core, picks, comps.len() as int)
    }

    /// Each group of a partition is finite and holds a node.
    proof fn lemma_group_nonempty(&self, comps: Seq<Set<u32>>, c: int)
        requires
            self.is_partition(comps),
            0 <= c < comps.len(),
        ensures
            comps[c].finite(),
            comps[c].len() > 0,
            comps[c].contains(comps[c].choose()),
            self.member(comps[c].choose()),
    {
        assert(comps[c].finite() && comps[c].len() > 0);
    }

    /// A network split into two or more components is not connected.
    proof fn lemma_components_split(&self, comps: Seq<Set<u32>>)
        requires
            self.is_components(comps),
            comps.len() >= 2,
        ensures
            !self.connected(),
    {
        let x = comps[0].choose();
        let y = comps[1].choose();
        assert(comps[0].finite() && comps[0].len() > 0);
        assert(comps[1].finite() && comps[1].len() > 0);
        assert(comps[0].contains(x));
        assert(comps[1].contains(y));
        assert(self.member(x) && self.member(y));
        if self.reaches(x, y) {
            assert(comps[0].contains(y));
        }
    }

    /// The degree of a node depends only on the cells of its row and column.
    proof fn lemma_degree_same(&self, other: AdjView, y: u32, k: nat)
        requires
            self.n == other.n,
            self.deactivated == other.deactivated,
            forall|i: u32| i < k ==> #[trigger] self.cell(i, y) == other.cell(i, y) && self.cell(y, i) == other.cell(y, i),
        ensures
            self.degree_below(y, k) == other.degree_below(y, k),
        decreases k,
    {
        if k > 0 {
            let i = (k - 1) as u32;
            assert(self.cell(i, y) == other.cell(i, y));
            self.lemma_degree_same(other, y, (k - 1) as nat);
        }
    }

    /// While repairing, the nodes of a component not yet linked keep their degree.
    proof fn lemma_degree_kept(&self, old_adj: AdjView, comps: Seq<Set<u32>>, hub: int, core: u32, picks: Seq<u32>, c: int)
        requires
            self.n == old_adj.n,
            self.deactivated == old_adj.deactivated,
            old_adj.is_components(comps),
            0 <= hub < comps.len(),
            0 <= c < comps.len(),
            c != hub,
            comps[hub].contains(core),
            picks.len() == comps.len(),
            forall|d: int| 0 <= d < c && d != hub ==> (#[trigger] comps[d]).contains(picks[d]),
            old_adj.linked_up(self.data, hub, core, picks, c),
        ensures
            forall|y: u32| #[trigger] comps[c].contains(y) ==> self.degree(y) == old_adj.degree(y),
            forall|y: u32| #[trigger] comps[c].contains(y) ==> y < self.n,
    {
        assert forall|y: u32| #[trigger] comps[c].contains(y) implies self.degree(y) == old_adj.degree(y) by {
            assert(old_adj.member(y));
            assert(old_adj.member(core));
            assert forall|i: u32| i < self.n implies #[trigger] self.cell(i, y) == old_adj.cell(i, y)
                && self.cell(y, i) == old_adj.cell(y, i) by {
                lemma_index_fits(self.n, i, y);
                lemma_index_fits(self.n, y, i);
                let n = self.n;
                if exists|d: int| 0 <= d < c && d != hub && i * n + y == core * n + picks[d] {
                    let d = choose|d: int| 0 <= d < c && d != hub && i * n + y == core * n + picks[d];
                    assert(comps[d].contains(picks[d]));
                    assert(old_adj.member(picks[d]));
                    lemma_index_injective(n, i, y, core, picks[d]);
                    assert(comps[d].contains(y));
                }
                if exists|d: int| 0 <= d < c && d != hub && y * n + i == core * n + picks[d] {
                    let d = choose|d: int| 0 <= d < c && d != hub && y * n + i == core * n + picks[d];
                    assert(comps[d].contains(picks[d]));
                    assert(old_adj.member(picks[d]));
                    lemma_index_injective(n, y, i, core, picks[d]);
                    assert(comps[hub].contains(y));
                }
                if i * n + y < self.data.len() {
                    assert(self.data[i * n + y] == old_adj.data[i * n + y]);
                }
                if y * n + i < self.data.len() {
                    assert(self.data[y * n + i] == old_adj.data[y * n + i]);
                }
            }
            self.lemma_degree_same(old_adj, y, self.n as nat);
        }
    }

    /// After the repair every active node reaches the core node, so the network is connected.
    proof fn lemma_repair_connects(&self, comps: Seq<Set<u32>>, hub: int, core: u32, picks: Seq<u32>, new: AdjView)
        requires
            self.repaired_by(comps, hub, core, picks, new.data),
            new.n == self.n,
            new.deactivated == self.deactivated,
            self.data.len() >= self.n * self.n,
        ensures
            new.connected(),
    {
        let n = self.n;
        assert forall|i: u32, j: u32| #[trigger] self.linked(i, j) implies new.linked(i, j) by {
            lemma_index_fits(n, i, j);
            lemma_index_fits(n, j, i);
            if self.cell(i, j) {
                assert(new.data[i * n + j]);
            }
            if self.cell(j, i) {
                assert(new.data[j * n + i]);
            }
        }
        assert(self.member(core));
        assert forall|x: u32| self.member(x) implies #[trigger] new.reaches(x, core) by {
            let cx = choose|c: int| 0 <= c < comps.len() && #[trigger] comps[c].contains(x);
            if cx == hub {
                assert(self.reaches(x, core));
                self.lemma_reaches_mono(new, x, core);
            } else {
                let p = picks[cx];
                assert(comps[cx].contains(p));
                assert(self.reaches(x, p));
                self.lemma_reaches_mono(new, x, p);
                assert(self.member(p));
                assert(core != p) by {
                    if core == p {
                        assert(comps[hub].contains(p));
                    }
                }
                lemma_index_fits(n, core, p);
                assert(new.data[core * n + p]);
                assert(new.linked(p, core));
                new.lemma_reaches_step(x, p, core);
            }
        }
        assert forall|x: u32, y: u32| new.member(x) && new.member(y) implies #[trigger] new.reaches(x, y) by {
            assert(new.reaches(x, core));
            assert(new.reaches(y, core));
            new.lemma_reaches_symmetric(y, core);
            new.lemma_reaches_trans(x, core, y);
        }
    }

    /// A path stays a path in a network that keeps every member and every link.
    pub proof fn lemma_reaches_grow(&self, new: AdjView, x: u32, y: u32)
        requires
            forall|i: u32| #[trigger] self.member(i) ==> new.member(i),
            forall|i: u32, j: u32| #[trigger] self.linked(i, j) ==> new.linked(i, j),
            self.reaches(x, y),
        ensures
            new.reaches(x, y),
    {
        let p = choose|p: Seq<u32>| #[trigger] self.is_path(p) && p[0] == x && p.last() == y;
        assert forall|k: int| 0 <= k < p.len() - 1 implies new.linked(#[trigger] p[k], p[k + 1]) by {
            assert(self.linked(p[k], p[k + 1]));
        }
        assert forall|k: int| 0 <= k < p.len() implies new.member(#[trigger] p[k]) by {
            assert(self.member(p[k]));
        }
        assert(new.is_path(p));
    }

    /// Adding links keeps every walk.
    proof fn lemma_reaches_mono(&self, new: AdjView, x: u32, y: u32)
        requires
            new.n == self.n,
            new.deactivated == self.deactivated,
            forall|i: u32, j: u32| #[trigger] self.linked(i, j) ==> new.linked(i, j),
            self.reaches(x, y),
        ensures
            new.reaches(x, y),
    {
        let p = choose|p: Seq<u32>| #[trigger] self.is_path(p) && p[0] == x && p.last() == y;
        assert forall|k: int| 0 <= k < p.len() - 1 implies new.linked(#[trigger] p[k], p[k + 1]) by {
            assert(self.linked(p[k], p[k + 1]));
        }
        assert forall|k: int| 0 <= k < p.len() implies new.member(#[trigger] p[k]) by {
            assert(self.member(p[k]));
        }
        assert(new.is_path(p));
    }

    /// Every link of `x` leads into `s`.
    pub open spec fn closed_at(&self, x: u32, s: Set<u32>) -> bool {
        forall|y: u32| #[trigger] self.linked(x, y) ==> s.contains(y)
    }

    /// The active nodes of the matrix.
    pub open spec fn members(&self) -> Set<u32> {
        Set::new(|i: u32| self.member(i))
    }

    /// Whether every node that left the network lies inside the matrix.
    pub open spec fn departures_in_range(&self) -> bool {
        forall|k: u32| #[trigger] self.deactivated.contains(k) ==> k < self.n
    }

    /// When the departed nodes lie inside the matrix, the search count of
    /// `is_connected` matches the number of active nodes exactly when the
    /// network is connected.
    pub proof fn lemma_search_count_connected(&self)
        requires
            self.departures_in_range(),
        ensures
            (self.search_count() == self.n - self.deactivated.len()) <==> self.connected(),
    {
        self.lemma_members_count();
        match self.first_member_below(self.n as nat) {
            None => {
                self.lemma_no_first_member(self.n as nat);
                assert(self.members() =~= Set::<u32>::empty());
            },
            Some(s) => {
                self.lemma_first_member_is_member(self.n as nat);
                let r = self.reach_set(s);
                assert(r.subset_of(self.members())) by {
                    assert forall|y: u32| r.contains(y) implies self.members().contains(y) by {
                        self.lemma_reaches_ends(s, y);
                    }
                }
                vstd::set_lib::lemma_len_subset(r, self.members());
                if self.search_count() == self.n - self.deactivated.len() {
                    vstd::set_lib::lemma_subset_equality(r, self.members());
                    assert forall|x: u32, y: u32| self.member(x) && self.member(y) implies #[trigger] self.reaches(x, y) by {
                        assert(self.members().contains(x));
                        assert(self.members().contains(y));
                        assert(r.contains(x));
                        assert(r.contains(y));
                        self.lemma_reaches_symmetric(s, x);
                        self.lemma_reaches_trans(x, s, y);
                    }
                }
                if self.connected() {
                    assert(self.members().subset_of(r)) by {
                        assert forall|y: u32| self.members().contains(y) implies r.contains(y) by {
                            assert(self.reaches(s, y));
                        }
                    }
                    assert(r =~= self.members());
                }
            },
        }
    }

    /// With the departed nodes inside the matrix, it has `n` less their number of active nodes.
    pub proof fn lemma_members_count(&self)
        requires
            self.departures_in_range(),
        ensures
            self.members().finite(),
            self.deactivated.finite(),
            self.members().len() == self.n - self.deactivated.len(),
    {
        let r = Set::<u32>::range(0, self.n);
        vstd::set_lib::range_set_properties::<u32>(0, self.n);
        let d = self.deactivated;
        assert(d.subset_of(r));
        vstd::set_lib::lemma_len_subset(d, r);
        assert(self.members() =~= r.difference(d));
        assert(r.intersect(d) =~= d);
        vstd::set_lib::lemma_set_difference_len(r, d);
    }

    /// No active node lies below `k` when the scan finds none.
    pub proof fn lemma_no_first_member(&self, k: nat)
        requires
            self.first_member_below(k) is None,
        ensures
            forall|i: u32| i < k ==> !#[trigger] self.member(i),
        decreases k,
    {
        if k > 0 {
            self.lemma_no_first_member((k - 1) as nat);
        }
    }

    /// What the scan finds is an active node below `k`.
    pub proof fn lemma_first_member_is_member(&self, k: nat)
        requires
            self.first_member_below(k) is Some,
        ensures
            self.member(self.first_member_below(k)->0),
            self.first_member_below(k)->0 < k,
        decreases k,
    {
        if k > 0 && self.first_member_below((k - 1) as nat) is Some {
            self.lemma_first_member_is_member((k - 1) as nat);
        }
    }

    /// Both ends of a walk are active nodes.
    pub proof fn lemma_reaches_ends(&self, x: u32, y: u32)
        requires
            self.reaches(x, y),
        ensures
            self.member(x),
            self.member(y),
    {
        let p = choose|p: Seq<u32>| #[trigger] self.is_path(p) && p[0] == x && p.last() == y;
        assert(self.member(p[0]));
        assert(self.member(p[p.len() - 1]));
    }

    /// Links go both ways, so walks can be reversed.
    pub proof fn lemma_reaches_symmetric(&self, x: u32, y: u32)
        requires
            self.reaches(x, y),
        ensures
            self.reaches(y, x),
    {
        let p = choose|p: Seq<u32>| #[trigger] self.is_path(p) && p[0] == x && p.last() == y;
        let q = p.reverse();
        assert forall|k: int| 0 <= k < q.len() implies self.member(#[trigger] q[k]) by {
            assert(q[k] == p[p.len() - 1 - k]);
        }
        assert forall|k: int| 0 <= k < q.len() - 1 implies self.linked(#[trigger] q[k], q[k + 1]) by {
            assert(q[k] == p[p.len() - 1 - k]);
            assert(q[k + 1] == p[p.len() - 1 - (k + 1)]);
            assert(self.linked(p[p.len() - 1 - (k + 1)], p[p.len() - 1 - (k + 1) + 1]));
        }
        assert(self.is_path(q));
        assert(q[0] == y);
        assert(q.last() == x);
    }

    /// Walks can be joined end to start.
    pub proof fn lemma_reaches_trans(&self, x: u32, y: u32, z: u32)
        requires
            self.reaches(x, y),
            self.reaches(y, z),
        ensures
            self.reaches(x, z),
    {
        let p = choose|p: Seq<u32>| #[trigger] self.is_path(p) && p[0] == x && p.last() == y;
        let q = choose|q: Seq<u32>| #[trigger] self.is_path(q) && q[0] == y && q.last() == z;
        let r = p + q.skip(1);
        assert forall|k: int| 0 <= k < r.len() implies self.member(#[trigger] r[k]) by {
            if k < p.len() {
                assert(r[k] == p[k]);
            } else {
                assert(r[k] == q[k - p.len() + 1]);
            }
        }
        assert forall|k: int| 0 <= k < r.len() - 1 implies self.linked(#[trigger] r[k], r[k + 1]) by {
            if k < p.len() - 1 {
                assert(r[k] == p[k]);
                assert(r[k + 1] == p[k + 1]);
            } else if k == p.len() - 1 {
                assert(r[k] == y);
                assert(r[k + 1] == q[1]);
                assert(self.linked(q[0], q[1]));
            } else {
                assert(r[k] == q[k - p.len() + 1]);
                assert(r[k + 1] == q[k - p.len() + 2]);
                assert(self.linked(q[k - p.len() + 1], q[k - p.len() + 1 + 1]));
            }
        }
        assert(self.is_path(r));
        if q.len() == 1 {
            assert(r =~= p);
        } else {
            assert(r.last() == q.last());
        }
    }

    /// Once a least active node is found below `k`, it stays the least below any `m >= k`.
    pub proof fn lemma_first_member_stable(&self, k: nat, m: nat)
        requires
            k <= m,
            self.first_member_below(k) is Some,
        ensures
            self.first_member_below(m) == self.first_member_below(k),
        decreases m - k,
    {
        if k < m {
            self.lemma_first_member_stable(k, (m - 1) as nat);
        }
    }

    /// An active node reaches itself.
    pub proof fn lemma_reaches_self(&self, x: u32)
        requires
            self.member(x),
        ensures
            self.reaches(x, x),
    {
        let p = seq![x];
        assert(self.is_path(p));
    }

    /// A walk can be extended by one link.
    pub proof fn lemma_reaches_step(&self, x: u32, z: u32, y: u32)
        requires
            self.reaches(x, z),
            self.linked(z, y),
        ensures
            self.reaches(x, y),
    {
        let p = choose|p: Seq<u32>| #[trigger] self.is_path(p) && p[0] == x && p.last() == z;
        let q = p.push(y);
        assert(q[q.len() - 2] == z);
        assert forall|k: int| 0 <= k < q.len() implies self.member(#[trigger] q[k]) by {
            if k < p.len() {
                assert(q[k] == p[k]);
            }
        }
        assert forall|k: int| 0 <= k < q.len() - 1 implies self.linked(#[trigger] q[k], q[k + 1]) by {
            if k < p.len() - 1 {
                assert(q[k] == p[k]);
                assert(q[k + 1] == p[k + 1]);
            }
        }
        assert(self.is_path(q));
    }

    /// A set holding `x` and closed under links holds everything `x` reaches.
    pub proof fn lemma_closed_contains_reach(&self, s: Set<u32>, x: u32, y: u32)
        requires
            s.contains(x),
            forall|z: u32| #[trigger] s.contains(z) ==> self.closed_at(z, s),
            self.reaches(x, y),
        ensures
            s.contains(y),
    {
        let p = choose|p: Seq<u32>| #[trigger] self.is_path(p) && p[0] == x && p.last() == y;
        self.lemma_closed_contains_path(s, p, p.len() - 1);
    }

    /// Every node of a walk starting in a link-closed set lies in it.
    pub proof fn lemma_closed_contains_path(&self, s: Set<u32>, p: Seq<u32>, k: int)
        requires
            self.is_path(p),
            s.contains(p[0]),
            forall|z: u32| #[trigger] s.contains(z) ==> self.closed_at(z, s),
            0 <= k < p.len(),
        ensures
            s.contains(p[k]),
        decreases k,
    {
        if k > 0 {
            self.lemma_closed_contains_path(s, p, k - 1);
            assert(self.linked(p[k - 1], p[k]));
            assert(self.closed_at(p[k - 1], s));
        }
    }
}

/// The matrix as written in a configuration file: `n` rows of `n` cells,
/// any non-zero cell being an edge.
pub struct RawAdj {
    pub n: u32,
    pub matrix: Vec<Vec<u8>>,
}

/// Why a configured matrix was refused.
#[derive(Debug, PartialEq, Eq, Structural, Clone, Copy)]
pub enum AdjError {
    BadDimensions,
    NotConnected,
}

impl AdjError {
    /// The message shown for this error.
    pub fn message(&self) -> (s: &'static str)
        ensures
            s@ == adj_error_text(*self),
    {
        match self {
            AdjError::NotConnected => "Adj matrix is not connected",
            AdjError::BadDimensions => "Adj dimensions are invalid",
        }
    }
}

impl RawAdj {
    /// The matrix has `n` rows of `n` cells each.
    pub open spec fn dims_ok(&self) -> bool {
        &&& self.matrix@.len() == self.n
        &&& forall|i: int| 0 <= i < self.n ==> (#[trigger] self.matrix@[i])@.len() == self.n
    }

    /// `data` holds this matrix row by row, a non-zero cell being an edge.
    pub open spec fn flattened_to(&self, data: Seq<bool>) -> bool {
        &&& data.len() == self.n * self.n
        &&& forall|i: u32, j: u32| i < self.n && j < self.n ==> #[trigger] Adj::stored(data, self.n, i, j)
            == (self.matrix@[i as int]@[j as int] != 0)
    }

    /// The cells of the matrix row by row, a non-zero cell being an edge.
    pub open spec fn flattened(&self) -> Seq<bool> {
        Seq::new((self.n * self.n) as nat, |idx: int| self.matrix@[idx / (self.n as int)]@[idx % (self.n as int)] != 0)
    }

    /// The network the matrix describes, every node active.
    pub open spec fn network(&self) -> AdjView {
        AdjView { n: self.n, data: self.flattened(), deactivated: Set::empty() }
    }

    /// Data laid out as this matrix is the flattened matrix.
    pub proof fn lemma_flattened(&self, data: Seq<bool>)
        requires
            self.flattened_to(data),
        ensures
            data == self.flattened(),
    {
        let n = self.n as int;
        assert forall|idx: int| 0 <= idx < data.len() implies data[idx] == self.flattened()[idx] by {
            vstd::arithmetic::div_mod::lemma_fundamental_div_mod(idx, n);
            vstd::arithmetic::div_mod::lemma_mod_pos_bound(idx, n);
            let q = idx / n;
            let r = idx % n;
            assert(0 <= q < n) by (nonlinear_arith)
                requires
                    idx == n * q + r,
                    0 <= r < n,
                    0 <= idx < n * n,
            ;
            assert(q * n + r == idx) by (nonlinear_arith)
                requires
                    idx == n * q + r,
            ;
            assert(Adj::stored(data, self.n, q as u32, r as u32) == (self.matrix@[q]@[r] != 0));
        }
        assert(data =~= self.flattened());
    }

    /// Checks the dimensions, flattens the matrix, and checks that the network
    /// it describes (with every node active) is connected.
    pub fn to_valid(&self) -> (res: Result<Adj, AdjError>)
        requires
            self.matrix@.len() == self.n ==> self.n * self.n <= usize::MAX,
            self.dims_ok() ==> indexable(self.n),
        ensures
            match res {
                Ok(adj) => self.dims_ok() && adj@ == self.network() && adj@.connected(),
                Err(AdjError::BadDimensions) => !self.dims_ok(),
                Err(AdjError::NotConnected) => self.dims_ok() && !self.network().connected(),
            },
    {
        let n_size = self.n as usize;
        if self.matrix.len() != n_size {
            return Err(AdjError::BadDimensions);
        }
        let cell_count: usize = n_size * n_size;
        let mut flat_vec = vec![false; cell_count];
        proof {
            assert forall|a: u32, b: u32| a < self.n && b < self.n implies !#[trigger] Adj::stored(flat_vec@, self.n, a, b) by {
                lemma_index_fits(self.n, a, b);
                assert(cloned(false, flat_vec@[a * self.n + b]));
            }
        }
        let mut i: usize = 0;
        while i < self.matrix.len()
            invariant
                n_size == self.n,
                self.matrix@.len() == self.n,
                self.n * self.n <= usize::MAX,
                i <= self.n,
                flat_vec@.len() == self.n * self.n,
                forall|k: int| 0 <= k < i ==> (#[trigger] self.matrix@[k])@.len() == self.n,
                forall|a: u32, b: u32| a < self.n && b < self.n ==> #[trigger] Adj::stored(flat_vec@, self.n, a, b)
                    == (a < i && self.matrix@[a as int]@[b as int] != 0),
            decreases self.n - i,
        {
            let row = &self.matrix[i];
            if row.len() != n_size {
                return Err(AdjError::BadDimensions);
            }
            let mut j: usize = 0;
            while j < row.len()
                invariant
                    n_size == self.n,
                    row@.len() == self.n,
                    *row == self.matrix@[i as int],
                    self.n * self.n <= usize::MAX,
                    i < self.n,
                    j <= self.n,
                    flat_vec@.len() == self.n * self.n,
                    forall|a: u32, b: u32| a < self.n && b < self.n ==> #[trigger] Adj::stored(flat_vec@, self.n, a, b)
                        == ((a < i || (a == i && b < j)) && self.matrix@[a as int]@[b as int] != 0),
                decreases self.n - j,
            {
                proof {
                    lemma_index_fits(self.n, i as u32, j as u32);
                }
                let ghost d0 = flat_vec@;
                let idx = i * n_size + j;
                flat_vec.set(idx, row[j] != 0);
                proof {
                    assert forall|a: u32, b: u32| a < self.n && b < self.n implies #[trigger] Adj::stored(flat_vec@, self.n, a, b)
                        == ((a < i || (a == i && b < j + 1)) && self.matrix@[a as int]@[b as int] != 0) by {
                        lemma_index_fits(self.n, a, b);
                        if a == i && b == j {
                        } else {
                            if a * self.n + b == i * self.n + j {
                                lemma_index_injective(self.n, a, b, i as u32, j as u32);
                            }
                            assert(Adj::stored(d0, self.n, a, b) == Adj::stored(flat_vec@, self.n, a, b));
                        }
                    }
                }
                j = j + 1;
            }
            i = i + 1;
        }
        let adj = Adj { n: self.n, data: flat_vec, deactivated: HashSet::new() };
        proof {
            assert(adj@.departures_in_range());
        }
        assert(self.dims_ok());
        proof {
            self.lemma_flattened(adj.data@);
            assert(adj@ =~= self.network());
        }
        if !adj.is_connected() {
            return Err(AdjError::NotConnected);
        }
        Ok(adj)
    }
}

/// The index of the first group holding `x`.
fn find_group(components: &Vec<HashSet<u32>>, x: u32) -> (res: usize)
    requires
        exists|c: int| 0 <= c < components@.len() && #[trigger] components@[c]@.contains(x),
    ensures
        res < components@.len(),
        components@[res as int]@.contains(x),
        res == first_group(groups_of(components@), x),
{
    let mut k: usize = 0;
    while k < components.len()
        invariant
            k <= components@.len(),
            forall|c: int| 0 <= c < k ==> !(#[trigger] components@[c])@.contains(x),
            exists|c: int| 0 <= c < components@.len() && #[trigger] components@[c]@.contains(x),
        decreases components@.len() - k,
    {
        if components[k].contains(&x) {
            proof {
                let g = groups_of(components@);
                assert(first_holds(g, x, k as int));
                let c = first_group(g, x);
                assert(first_holds(g, x, c));
                if c < k {
                    assert(!components@[c]@.contains(x));
                } else if c > k {
                    assert(!g[k as int].contains(x));
                }
            }
            return k;
        }
        k = k + 1;
    }
    proof {
        let c = choose|c: int| 0 <= c < components@.len() && #[trigger] components@[c]@.contains(x);
        assert(!components@[c]@.contains(x));
    }
    0
}

/// Joins group `greater` into group `lesser`, as `swap_remove` and a set union do.
fn join_groups(components: &mut Vec<HashSet<u32>>, lesser: usize, greater: usize)
    requires
        lesser < greater < old(components)@.len(),
    ensures
        groups_of(final(components)@) == merge_groups(groups_of(old(components)@), lesser as int, greater as int),
{
    let ghost g0 = groups_of(components@);
    let removed_set = components.swap_remove(greater);
    assert(removed_set@ == g0[greater as int]);
    assert(components@[lesser as int]@ == g0[lesser as int]);
    let mut merged = HashSet::new();
    insert_all(&mut merged, &components[lesser]);
    insert_all(&mut merged, &removed_set);
    assert(merged@ =~= g0[lesser as int].union(g0[greater as int]));
    let ghost c1 = components@;
    components.set(lesser, merged);
    assert(components@ == c1.update(lesser as int, merged));
    assert(groups_of(components@) =~= merge_groups(g0, lesser as int, greater as int));
}

/// Adds every element of `src` to `dst`.
fn insert_all(dst: &mut HashSet<u32>, src: &HashSet<u32>)
    ensures
        final(dst)@ == old(dst)@.union(src@),
        src@.finite(),
{
    let ghost d0 = dst@;
    let keys_iter = src.iter();
    let ghost keys = keys_iter.remaining().unref();
    assert(keys.to_set() == src@);
    for x in it: keys_iter
        invariant
            it.seq().unref() == keys,
            keys.to_set() == src@,
            dst@ == d0.union(keys.take(it.index() as int).to_set()),
    {
        let ghost before = keys.take(it.index() as int);
        assert(keys.take(it.index() as int + 1) =~= before.push(*x));
        assert(before.push(*x).to_set() =~= before.to_set().insert(*x)) by {
            assert forall|y: u32| before.push(*x).to_set().contains(y) implies before.to_set().insert(*x).contains(y) by {
                let k = choose|k: int| 0 <= k < before.push(*x).len() && before.push(*x)[k] == y;
                if k < before.len() {
                    assert(before[k] == y);
                }
            }
            assert forall|y: u32| before.to_set().insert(*x).contains(y) implies before.push(*x).to_set().contains(y) by {
                if y == *x {
                    assert(before.push(*x)[before.len() as int] == y);
                } else {
                    let k = choose|k: int| 0 <= k < before.len() && before[k] == y;
                    assert(before.push(*x)[k] == y);
                }
            }
        }
        dst.insert(*x);
    }
    assert(keys.take(keys.len() as int) =~= keys);
}

/// A matrix whose indices fit a `u32` has at most 65536 nodes.
pub proof fn lemma_indexable_bound(n: u32)
    requires
        indexable(n),
    ensures
        n <= 0x1_0000,
{
    if n > 0x1_0000 {
        assert(n * n > 0x1_0000 * 0x1_0000) by (nonlinear_arith)
            requires
                n > 0x1_0000,
        ;
    }
}

/// The degree of a node is the number of nodes with an edge to it plus the
/// number of nodes it has an edge to.
pub proof fn law_degree_counts(adj: AdjView, node: u32)
    ensures
        adj.degree(node) == Set::new(|i: u32| i < adj.n && adj.edge(i, node)).len() + Set::new(
            |i: u32| i < adj.n && adj.edge(node, i),
        ).len(),
{
    lemma_degree_below_counts(adj, node, adj.n as nat);
}

/// Below `k`, the degree counts the nodes with an edge to `node` and those it
/// has an edge to.
proof fn lemma_degree_below_counts(adj: AdjView, node: u32, k: nat)
    requires
        k <= u32::MAX + 1,
    ensures
        Set::new(|i: u32| i < k && adj.edge(i, node)).finite(),
        Set::new(|i: u32| i < k && adj.edge(node, i)).finite(),
        adj.degree_below(node, k) == Set::new(|i: u32| i < k && adj.edge(i, node)).len() + Set::new(
            |i: u32| i < k && adj.edge(node, i),
        ).len(),
    decreases k,
{
    let ins = Set::new(|i: u32| i < k && adj.edge(i, node));
    let outs = Set::new(|i: u32| i < k && adj.edge(node, i));
    if k == 0 {
        assert(ins =~= Set::<u32>::empty());
        assert(outs =~= Set::<u32>::empty());
    } else {
        let k0 = (k - 1) as nat;
        let j = k0 as u32;
        lemma_degree_below_counts(adj, node, k0);
        let ins0 = Set::new(|i: u32| i < k0 && adj.edge(i, node));
        let outs0 = Set::new(|i: u32| i < k0 && adj.edge(node, i));
        assert(!ins0.contains(j));
        assert(!outs0.contains(j));
        if adj.edge(j, node) {
            assert(ins =~= ins0.insert(j));
        } else {
            assert(ins =~= ins0);
        }
        if adj.edge(node, j) {
            assert(outs =~= outs0.insert(j));
        } else {
            assert(outs =~= outs0);
        }
    }
}

/// How a repair reconnects the network. Of the components, in the order
/// `get_components` lists them, the hub is one of greatest size (the last
/// such) and the core a node of greatest degree in it. The only cells that
/// change are edges set from the core to nodes outside the hub, and every other
/// component `c` gets one such edge, to its pick `picks[c]`: a node of greatest
/// degree in it.
pub proof fn law_repair_links_largest(
    adj: AdjView,
    comps: Seq<Set<u32>>,
    hub: int,
    core: u32,
    picks: Seq<u32>,
    data: Seq<bool>,
)
    requires
        adj.data.len() >= adj.n * adj.n,
        adj.repaired_by(comps, hub, core, picks, data),
    ensures
        0 <= hub < adj.component_list().len(),
        forall|c: int|
            0 <= c < adj.component_list().len() ==> (#[trigger] adj.component_list()[c]).len()
                <= adj.component_list()[hub].len(),
        forall|c: int|
            hub < c < adj.component_list().len() ==> (#[trigger] adj.component_list()[c]).len()
                < adj.component_list()[hub].len(),
        adj.component_list()[hub].contains(core),
        forall|y: u32| #[trigger] adj.component_list()[hub].contains(y) ==> adj.degree(y) <= adj.degree(core),
        data.len() == adj.data.len(),
        forall|idx: int|
            0 <= idx < data.len() && #[trigger] data[idx] != adj.data[idx] ==> data[idx] && exists|x: u32|
                #[trigger] adj.member(x) && !adj.component_list()[hub].contains(x) && idx == core * adj.n + x,
        picks.len() == adj.component_list().len(),
        forall|c: int|
            0 <= c < adj.component_list().len() && c != hub ==> (#[trigger] adj.component_list()[c]).contains(
                picks[c],
            ) && data[core * adj.n + picks[c]],
        forall|c: int, y: u32|
            0 <= c < adj.component_list().len() && c != hub && #[trigger] adj.component_list()[c].contains(y)
                ==> adj.degree(y) <= adj.degree(picks[c]),
{
    assert(adj.is_partition(comps));
    lemma_repair_changes(adj, comps, hub, core, picks, data);
    lemma_repair_reaches_every_group(adj, comps, hub, core, picks, data);
    assert(comps == adj.component_list());
}

/// The cells a repair changes are edges set from the core to nodes outside the hub.
proof fn lemma_repair_changes(adj: AdjView, comps: Seq<Set<u32>>, hub: int, core: u32, picks: Seq<u32>, data: Seq<bool>)
    requires
        adj.is_partition(comps),
        0 <= hub < comps.len(),
        picks.len() == comps.len(),
        forall|c: int| 0 <= c < comps.len() && c != hub ==> (#[trigger] comps[c]).contains(picks[c]),
        adj.linked_up(data, hub, core, picks, comps.len() as int),
    ensures
        forall|idx: int|
            0 <= idx < data.len() && #[trigger] data[idx] != adj.data[idx] ==> data[idx] && exists|x: u32|
                #[trigger] adj.member(x) && !comps[hub].contains(x) && idx == core * adj.n + x,
{
    let n = adj.n;
    assert forall|idx: int| 0 <= idx < data.len() && #[trigger] data[idx] != adj.data[idx] implies data[idx]
        && exists|x: u32| #[trigger] adj.member(x) && !comps[hub].contains(x) && idx == core * n + x by {
        let c = choose|c: int| 0 <= c < comps.len() && c != hub && idx == core * n + picks[c];
        let x = picks[c];
        assert(comps[c].contains(x));
        assert(adj.member(x));
        if comps[hub].contains(x) {
            assert(c == hub);
        }
    }
}

/// A repair sets, for every component but the hub, an edge from the core to
/// the node picked in it.
proof fn lemma_repair_reaches_every_group(
    adj: AdjView,
    comps: Seq<Set<u32>>,
    hub: int,
    core: u32,
    picks: Seq<u32>,
    data: Seq<bool>,
)
    requires
        adj.data.len() >= adj.n * adj.n,
        adj.is_partition(comps),
        0 <= hub < comps.len(),
        comps[hub].contains(core),
        picks.len() == comps.len(),
        forall|c: int| 0 <= c < comps.len() && c != hub ==> (#[trigger] comps[c]).contains(picks[c]),
        adj.linked_up(data, hub, core, picks, comps.len() as int),
    ensures
        forall|c: int| 0 <= c < comps.len() && c != hub ==> #[trigger] data[core * adj.n + picks[c]],
{
    let n = adj.n;
    assert forall|c: int| 0 <= c < comps.len() && c != hub implies #[trigger] data[core * adj.n + picks[c]] by {
        let x = picks[c];
        assert(comps[c].contains(x));
        assert(adj.member(x));
        assert(adj.member(core));
        lemma_index_fits(n, core, x);
        let idx = core * n + x;
        assert(data[idx] == (adj.data[idx] || exists|d: int| 0 <= d < comps.len() && d != hub && idx == core * n
            + picks[d]));
    }
}

/// Distinct cells have distinct indices.
pub proof fn lemma_index_injective(n: u32, a: u32, b: u32, c: u32, d: u32)
    requires
        b < n,
        d < n,
        a * n + b == c * n + d,
    ensures
        a == c,
        b == d,
{
    assert(a == c) by (nonlinear_arith)
        requires
            b < n,
            d < n,
            a * n + b == c * n + d,
            a >= 0,
            c >= 0,
    {
        if a > c {
            assert(a * n >= (c + 1) * n);
        } else if a < c {
            assert(c * n >= (a + 1) * n);
        }
    }
}

/// For `i, j < n`, the cell index `i * n + j` lies below `n * n`.
pub proof fn lemma_index_fits(n: u32, i: u32, j: u32)
    requires
        i < n,
        j < n,
    ensures
        i * n + j < n * n,
        0 <= i * n + j,
{
    assert(i * n + j < n * n) by (nonlinear_arith)
        requires
            i < n,
            j < n,
    ;
    assert(0 <= i * n) by (nonlinear_arith);
}

} // verus!
