//! Reduced degree-of-freedom numbering: Dirichlet elimination and periodic
//! identification of full DOFs.

use vstd::prelude::*;

verus! {

/// Number of positions below `k` whose flag is set.
pub open spec fn count_below(flags: Seq<bool>, k: int) -> nat
    decreases k,
{
    if k <= 0 {
        0
    } else {
        count_below(flags, k - 1) + if flags[k - 1] {
            1nat
        } else {
            0nat
        }
    }
}

/// Which full DOFs are representatives (their own class's smallest member).
pub open spec fn is_root_flags(reps: Seq<usize>) -> Seq<bool> {
    Seq::new(reps.len(), |d: int| reps[d] == d)
}

/// `reps` names, for every full DOF, a representative that represents itself.
pub open spec fn representatives_wf(reps: Seq<usize>) -> bool {
    forall|d: int|
        #![trigger reps[d]]
        0 <= d < reps.len() ==> reps[d] < reps.len() && reps[reps[d] as int] == reps[d]
}

/// The set of eliminated DOFs as flags over `0..n`.
pub open spec fn kept_flags(n: nat, eliminated: Seq<usize>) -> Seq<bool> {
    Seq::new(n, |d: int| !eliminated.contains(d as usize))
}

pub proof fn lemma_count_below_monotone(flags: Seq<bool>, i: int, j: int)
    requires
        0 <= i <= j <= flags.len(),
    ensures
        count_below(flags, i) <= count_below(flags, j),
        i < j && flags[i] ==> count_below(flags, i) < count_below(flags, j),
    decreases j - i,
{
    if i < j {
        lemma_count_below_monotone(flags, i, j - 1);
        if i < j - 1 {
            lemma_count_below_monotone(flags, i, i + 1);
            lemma_count_below_monotone(flags, i + 1, j);
        }
    }
}

pub proof fn lemma_count_below_bounded(flags: Seq<bool>, k: int)
    requires
        0 <= k <= flags.len(),
    ensures
        count_below(flags, k) <= k,
    decreases k,
{
    if k > 0 {
        lemma_count_below_bounded(flags, k - 1);
    }
}

/// Every rank below the flagged total is the rank of some flagged position.
pub proof fn lemma_count_below_onto(flags: Seq<bool>, k: int, r: nat)
    requires
        0 <= k <= flags.len(),
        r < count_below(flags, k),
    ensures
        exists|d: int| 0 <= d < k && flags[d] && count_below(flags, d) == r,
    decreases k,
{
    if r < count_below(flags, k - 1) {
        lemma_count_below_onto(flags, k - 1, r);
        let d = choose|d: int| 0 <= d < k - 1 && flags[d] && count_below(flags, d) == r;
        assert(0 <= d < k && flags[d] && count_below(flags, d) == r);
    } else {
        assert(flags[k - 1] && count_below(flags, k - 1) == r);
    }
}

/// Full-to-reduced DOF lookup: entry `d` is the reduced index of full DOF
/// `d`, or `None` when that DOF is eliminated.
pub struct DofLookup {
    lut: Vec<Option<usize>>,
    n_reduced: usize,
}

impl DofLookup {
    #[verifier::type_invariant]
    spec fn inv(self) -> bool {
        forall|d: int|
            0 <= d < self.lut@.len() ==> (#[trigger] self.lut@[d] matches Some(r) ==> r
                < self.n_reduced)
    }

    /// The lookup table, indexed by full DOF.
    pub closed spec fn table(self) -> Seq<Option<usize>> {
        self.lut@
    }

    /// The number of reduced DOFs.
    pub closed spec fn size(self) -> nat {
        self.n_reduced as nat
    }

    /// Number of full DOFs covered by the table.
    pub fn full_size(&self) -> (n: usize)
        ensures
            n == self.table().len(),
    {
        self.lut.len()
    }

    /// Full -> reduced DOF lookup.
    pub fn target_dof(&self, full: usize) -> (target: Option<usize>)
        requires
            full < self.table().len(),
        ensures
            target == self.table()[full as int],
            target matches Some(r) ==> r < self.size(),
    {
        proof {
            use_type_invariant(self);
        }
        self.lut[full]
    }

    /// The reduced index of each closure DOF of each cell, `None` where the
    /// DOF is eliminated.
    pub fn map_cells(&self, cell_dofs: &Vec<Vec<usize>>) -> (reduced: Vec<Vec<Option<usize>>>)
        requires
            forall|c: int, i: int|
                0 <= c < cell_dofs@.len() && 0 <= i < cell_dofs@[c]@.len() ==> #[trigger] cell_dofs@[c]@[i]
                    < self.table().len(),
        ensures
            reduced@.len() == cell_dofs@.len(),
            forall|c: int|
                0 <= c < cell_dofs@.len() ==> #[trigger] reduced@[c]@.len() == cell_dofs@[c]@.len(),
            forall|c: int, i: int|
                0 <= c < cell_dofs@.len() && 0 <= i < cell_dofs@[c]@.len() ==> #[trigger] reduced@[c]@[i]
                    == self.table()[cell_dofs@[c]@[i] as int],
    {
        let mut reduced: Vec<Vec<Option<usize>>> = Vec::with_capacity(cell_dofs.len());
        let mut c: usize = 0;
        while c < cell_dofs.len()
            invariant
                c <= cell_dofs@.len(),
                reduced@.len() == c,
                forall|k: int, i: int|
                    0 <= k < cell_dofs@.len() && 0 <= i < cell_dofs@[k]@.len() ==> #[trigger] cell_dofs@[k]@[i]
                        < self.table().len(),
                forall|k: int| 0 <= k < c ==> #[trigger] reduced@[k]@.len() == cell_dofs@[k]@.len(),
                forall|k: int, i: int|
                    0 <= k < c && 0 <= i < cell_dofs@[k]@.len() ==> #[trigger] reduced@[k]@[i]
                        == self.table()[cell_dofs@[k]@[i] as int],
            decreases cell_dofs@.len() - c,
        {
            let dofs = &cell_dofs[c];
            let mut cell: Vec<Option<usize>> = Vec::with_capacity(dofs.len());
            let mut i: usize = 0;
            while i < dofs.len()
                invariant
                    c < cell_dofs@.len(),
                    *dofs == cell_dofs@[c as int],
                    i <= dofs@.len(),
                    cell@.len() == i,
                    forall|k: int| 0 <= k < dofs@.len() ==> #[trigger] dofs@[k] < self.table().len(),
                    forall|k: int| 0 <= k < i ==> #[trigger] cell@[k] == self.table()[dofs@[k] as int],
                decreases dofs@.len() - i,
            {
                assert(dofs@[i as int] == cell_dofs@[c as int]@[i as int]);
                cell.push(self.target_dof(dofs[i]));
                i = i + 1;
            }
            reduced.push(cell);
            c = c + 1;
        }
        reduced
    }

    /// Number of reduced DOFs.
    pub fn reduced_size(&self) -> (n: usize)
        ensures
            n == self.size(),
    {
        self.n_reduced
    }
}

/// Retain every DOF: the reduced index of `d` is `d`.
pub fn identity_lookup(n: usize) -> (lookup: DofLookup)
    ensures
        lookup.size() == n,
        lookup.table().len() == n,
        forall|d: int| 0 <= d < n ==> #[trigger] lookup.table()[d] == Some(d as usize),
{
    let mut lut: Vec<Option<usize>> = Vec::with_capacity(n);
    let mut d: usize = 0;
    while d < n
        invariant
            d <= n,
            lut@.len() == d,
            forall|k: int| 0 <= k < d ==> #[trigger] lut@[k] == Some(k as usize),
        decreases n - d,
    {
        lut.push(Some(d));
        d = d + 1;
    }
    DofLookup { lut, n_reduced: n }
}

/// Eliminate the listed DOFs; the kept DOFs are renumbered consecutively in
/// increasing order. Listed DOFs at or beyond `n` eliminate nothing.
pub fn dirichlet_lookup(n: usize, eliminated: &Vec<usize>) -> (lookup: DofLookup)
    ensures
        lookup.table().len() == n,
        lookup.size() == count_below(kept_flags(n as nat, eliminated@), n as int),
        forall|d: int|
            0 <= d < n ==> #[trigger] lookup.table()[d] == if eliminated@.contains(d as usize) {
                None
            } else {
                Some(count_below(kept_flags(n as nat, eliminated@), d) as usize)
            },
{
    let mut kept: Vec<bool> = Vec::with_capacity(n);
    let mut d: usize = 0;
    while d < n
        invariant
            d <= n,
            kept@.len() == d,
            forall|k: int| 0 <= k < d ==> #[trigger] kept@[k],
        decreases n - d,
    {
        kept.push(true);
        d = d + 1;
    }
    let mut i: usize = 0;
    while i < eliminated.len()
        invariant
            i <= eliminated@.len(),
            kept@.len() == n,
            forall|k: int|
                0 <= k < n ==> #[trigger] kept@[k] == !eliminated@.take(i as int).contains(
                    k as usize,
                ),
        decreases eliminated@.len() - i,
    {
        let e = eliminated[i];
        if e < n {
            kept.set(e, false);
        }
        proof {
            assert forall|k: int| 0 <= k < n implies #[trigger] kept@[k]
                == !eliminated@.take(i + 1).contains(k as usize) by {
                let prefix = eliminated@.take(i as int);
                let next = eliminated@.take(i + 1);
                assert(next =~= prefix.push(e));
                if prefix.contains(k as usize) {
                    let w = choose|w: int| 0 <= w < prefix.len() && prefix[w] == k as usize;
                    assert(next[w] == k as usize);
                }
                if next.contains(k as usize) && k as usize != e {
                    let w = choose|w: int| 0 <= w < next.len() && next[w] == k as usize;
                    assert(prefix[w] == k as usize);
                }
                if k as usize == e {
                    assert(next[i as int] == e);
                }
            }
        }
        i = i + 1;
    }
    assert(eliminated@.take(eliminated@.len() as int) =~= eliminated@);
    let ghost flags = kept_flags(n as nat, eliminated@);
    assert(kept@ =~= flags);
    let mut lut: Vec<Option<usize>> = Vec::with_capacity(n);
    let mut reduced: usize = 0;
    let mut d: usize = 0;
    while d < n
        invariant
            d <= n,
            kept@ == flags,
            flags.len() == n,
            lut@.len() == d,
            reduced == count_below(flags, d as int),
            forall|k: int|
                0 <= k < d ==> #[trigger] lut@[k] == if flags[k] {
                    Some(count_below(flags, k) as usize)
                } else {
                    None
                },
            forall|k: int| 0 <= k < d ==> (#[trigger] lut@[k] matches Some(r) ==> r < reduced),
        decreases n - d,
    {
        proof {
            lemma_count_below_bounded(flags, d as int);
        }
        if kept[d] {
            lut.push(Some(reduced));
            reduced = reduced + 1;
        } else {
            lut.push(None);
        }
        d = d + 1;
    }
    DofLookup { lut, n_reduced: reduced }
}

/// Number the representatives consecutively in increasing order and send
/// every full DOF to the reduced index of its representative.
pub fn lookup_from_representatives(reps: &Vec<usize>) -> (lookup: DofLookup)
    requires
        representatives_wf(reps@),
    ensures
        lookup.table().len() == reps@.len(),
        lookup.size() == count_below(is_root_flags(reps@), reps@.len() as int),
        forall|d: int|
            0 <= d < reps@.len() ==> #[trigger] lookup.table()[d] == Some(
                count_below(is_root_flags(reps@), reps@[d] as int) as usize,
            ),
{
    let n = reps.len();
    let ghost flags = is_root_flags(reps@);
    let mut rank: Vec<usize> = Vec::with_capacity(n);
    let mut roots: usize = 0;
    let mut d: usize = 0;
    while d < n
        invariant
            n == reps@.len(),
            flags == is_root_flags(reps@),
            d <= n,
            rank@.len() == d,
            roots == count_below(flags, d as int),
            forall|k: int| 0 <= k < d ==> #[trigger] rank@[k] == count_below(flags, k),
        decreases n - d,
    {
        proof {
            lemma_count_below_bounded(flags, d as int);
        }
        rank.push(roots);
        if reps[d] == d {
            roots = roots + 1;
        }
        d = d + 1;
    }
    let mut lut: Vec<Option<usize>> = Vec::with_capacity(n);
    let mut d: usize = 0;
    while d < n
        invariant
            n == reps@.len(),
            representatives_wf(reps@),
            flags == is_root_flags(reps@),
            roots == count_below(flags, n as int),
            d <= n,
            rank@.len() == n,
            lut@.len() == d,
            forall|k: int| 0 <= k < n ==> #[trigger] rank@[k] == count_below(flags, k),
            forall|k: int|
                0 <= k < d ==> #[trigger] lut@[k] == Some(
                    count_below(flags, reps@[k] as int) as usize,
                ),
            forall|k: int| 0 <= k < d ==> (#[trigger] lut@[k] matches Some(r) ==> r < roots),
        decreases n - d,
    {
        let rep = reps[d];
        proof {
            assert(flags[rep as int]);
            lemma_count_below_monotone(flags, rep as int, n as int);
        }
        lut.push(Some(rank[rep]));
        d = d + 1;
    }
    DofLookup { lut, n_reduced: roots }
}

/// Representatives for identifying DOF `slave` with DOF `master`: every other
/// DOF represents itself.
pub fn periodic_representatives(n: usize, master: usize, slave: usize) -> (reps: Vec<usize>)
    requires
        master < n,
        master != slave,
    ensures
        reps@.len() == n,
        forall|d: int| 0 <= d < n ==> #[trigger] reps@[d] == if d == slave {
            master
        } else {
            d as usize
        },
        representatives_wf(reps@),
{
    let mut reps: Vec<usize> = Vec::with_capacity(n);
    let mut d: usize = 0;
    while d < n
        invariant
            d <= n,
            reps@.len() == d,
            forall|k: int| 0 <= k < d ==> #[trigger] reps@[k] == if k == slave {
                master
            } else {
                k as usize
            },
        decreases n - d,
    {
        reps.push(if d == slave { master } else { d });
        d = d + 1;
    }
    reps
}

/// DOF reduction for a 1D interval mesh. Facets are `Point` entity indices.
#[derive(Clone, Debug)]
pub enum DofReduction1D {
    /// Retain every DOF.
    Unreduced,
    /// Identify the second endpoint facet with the first endpoint facet.
    Periodic { facets: [usize; 2] },
    /// Eliminate every closure DOF on selected endpoint facets.
    Dirichlet { facets_to_eliminate: Vec<usize> },
}

/// `boundary_dofs[f]` is the single closure DOF of boundary point `f`, or
/// `None` when `f` is not a boundary point.
pub open spec fn boundary_dof_of(boundary_dofs: Seq<Option<usize>>, facet: usize) -> Option<usize> {
    if facet < boundary_dofs.len() {
        boundary_dofs[facet as int]
    } else {
        None
    }
}

/// Every facet the reduction names is a boundary point, and periodic
/// endpoints carry distinct DOFs, the first of them below `n`.
pub open spec fn reduction_resolves(
    reduction: DofReduction1D,
    boundary_dofs: Seq<Option<usize>>,
    n: nat,
) -> bool {
    match reduction {
        DofReduction1D::Unreduced => true,
        DofReduction1D::Periodic { facets } => {
            &&& boundary_dof_of(boundary_dofs, facets[0]) matches Some(master) && master < n
            &&& boundary_dof_of(boundary_dofs, facets[1]) is Some
            &&& boundary_dof_of(boundary_dofs, facets[0]) != boundary_dof_of(
                boundary_dofs,
                facets[1],
            )
        },
        DofReduction1D::Dirichlet { facets_to_eliminate } => forall|i: int|
            0 <= i < facets_to_eliminate@.len() ==> (boundary_dof_of(
                boundary_dofs,
                #[trigger] facets_to_eliminate@[i],
            ) is Some),
    }
}

/// The DOFs a Dirichlet reduction eliminates, in the order of its facets.
pub open spec fn eliminated_dofs(facets: Seq<usize>, boundary_dofs: Seq<Option<usize>>) -> Seq<usize> {
    facets.map_values(|f: usize| boundary_dof_of(boundary_dofs, f)->0)
}

/// The lookup a reduction of `n` full DOFs produces.
pub open spec fn reduction_table(
    reduction: DofReduction1D,
    boundary_dofs: Seq<Option<usize>>,
    n: nat,
    d: int,
) -> Option<usize> {
    match reduction {
        DofReduction1D::Unreduced => Some(d as usize),
        DofReduction1D::Periodic { facets } => {
            let master = boundary_dof_of(boundary_dofs, facets[0])->0;
            let slave = boundary_dof_of(boundary_dofs, facets[1])->0;
            Some((if d == slave { master as int - if slave < master { 1int } else { 0int } }
            else { d - if slave < d { 1int } else { 0int } }) as usize)
        },
        DofReduction1D::Dirichlet { facets_to_eliminate } => {
            let eliminated = eliminated_dofs(facets_to_eliminate@, boundary_dofs);
            if eliminated.contains(d as usize) {
                None
            } else {
                Some(count_below(kept_flags(n, eliminated), d) as usize)
            }
        },
    }
}

/// The reduced size a reduction of `n` full DOFs produces.
pub open spec fn reduction_size(
    reduction: DofReduction1D,
    boundary_dofs: Seq<Option<usize>>,
    n: nat,
) -> nat {
    match reduction {
        DofReduction1D::Unreduced => n,
        DofReduction1D::Periodic { facets } => {
            let slave = boundary_dof_of(boundary_dofs, facets[1])->0;
            if slave < n {
                (n - 1) as nat
            } else {
                n
            }
        },
        DofReduction1D::Dirichlet { facets_to_eliminate } => count_below(
            kept_flags(n, eliminated_dofs(facets_to_eliminate@, boundary_dofs)),
            n as int,
        ),
    }
}

/// With only `slave` left out, the count of representatives below `k` is
/// `k` less one when `slave` lies below `k`.
proof fn lemma_count_all_but_one(flags: Seq<bool>, slave: int, k: int)
    requires
        0 <= k <= flags.len(),
        forall|d: int| 0 <= d < flags.len() ==> #[trigger] flags[d] == (d != slave),
    ensures
        count_below(flags, k) == k - if slave < k && 0 <= slave {
            1int
        } else {
            0int
        },
    decreases k,
{
    if k > 0 {
        lemma_count_all_but_one(flags, slave, k - 1);
    }
}

fn facet_dof(boundary_dofs: &Vec<Option<usize>>, facet: usize) -> (dof: usize)
    requires
        boundary_dof_of(boundary_dofs@, facet) is Some,
    ensures
        Some(dof) == boundary_dof_of(boundary_dofs@, facet),
{
    match boundary_dofs[facet] {
        Some(dof) => dof,
        None => 0,
    }
}

/// The full-to-reduced lookup of a 1D problem with `n` full DOFs, given the
/// closure DOF of each boundary point.
pub fn build_dof_lookup_1d(
    n: usize,
    reduction: &DofReduction1D,
    boundary_dofs: &Vec<Option<usize>>,
) -> (lookup: DofLookup)
    requires
        reduction_resolves(*reduction, boundary_dofs@, n as nat),
    ensures
        lookup.table().len() == n,
        lookup.size() == reduction_size(*reduction, boundary_dofs@, n as nat),
        forall|d: int|
            0 <= d < n ==> #[trigger] lookup.table()[d] == reduction_table(
                *reduction,
                boundary_dofs@,
                n as nat,
                d,
            ),
        match *reduction {
            DofReduction1D::Dirichlet { facets_to_eliminate } => {
                &&& forall|d: int|
                    0 <= d < n ==> (#[trigger] lookup.table()[d] is None <==> exists|i: int|
                        0 <= i < facets_to_eliminate@.len() && #[trigger] facets_to_eliminate@[i]
                            < boundary_dofs@.len() && boundary_dofs@[facets_to_eliminate@[i] as int]
                            == Some(d as usize))
                &&& forall|d1: int, d2: int|
                    0 <= d1 < d2 < n && #[trigger] lookup.table()[d1] is Some
                        && #[trigger] lookup.table()[d2] is Some ==> lookup.table()[d1]->0
                        < lookup.table()[d2]->0
                &&& forall|d: int|
                    0 <= d < n && #[trigger] lookup.table()[d] is Some ==> lookup.table()[d]->0
                        < lookup.size()
                &&& forall|r: usize|
                    r < lookup.size() ==> #[trigger] lookup.table().contains(Some(r))
            },
            _ => true,
        },
{
    match reduction {
        DofReduction1D::Unreduced => identity_lookup(n),
        DofReduction1D::Dirichlet { facets_to_eliminate } => {
            let mut eliminated: Vec<usize> = Vec::with_capacity(facets_to_eliminate.len());
            let mut i: usize = 0;
            while i < facets_to_eliminate.len()
                invariant
                    reduction_resolves(*reduction, boundary_dofs@, n as nat),
                    *reduction == (DofReduction1D::Dirichlet {
                        facets_to_eliminate: *facets_to_eliminate,
                    }),
                    i <= facets_to_eliminate@.len(),
                    eliminated@ =~= eliminated_dofs(facets_to_eliminate@, boundary_dofs@).take(
                        i as int,
                    ),
                decreases facets_to_eliminate@.len() - i,
            {
                let f = facets_to_eliminate[i];
                assert(boundary_dof_of(boundary_dofs@, facets_to_eliminate@[i as int]) is Some);
                eliminated.push(facet_dof(boundary_dofs, f));
                i = i + 1;
            }
            let ghost all = eliminated_dofs(facets_to_eliminate@, boundary_dofs@);
            assert(all.take(all.len() as int) =~= all);
            let lookup = dirichlet_lookup(n, &eliminated);
            proof {
                law_dirichlet_reduction_eliminates_listed_facets(
                    n,
                    *facets_to_eliminate,
                    boundary_dofs@,
                    lookup,
                );
            }
            lookup
        },
        DofReduction1D::Periodic { facets } => {
            let master = facet_dof(boundary_dofs, facets[0]);
            let slave = facet_dof(boundary_dofs, facets[1]);
            let reps = periodic_representatives(n, master, slave);
            let lookup = lookup_from_representatives(&reps);
            proof {
                let flags = is_root_flags(reps@);
                assert forall|d: int| 0 <= d < flags.len() implies #[trigger] flags[d] == (d
                    != slave) by {}
                lemma_count_all_but_one(flags, slave as int, n as int);
                assert forall|d: int| 0 <= d < n implies #[trigger] lookup.table()[d]
                    == reduction_table(*reduction, boundary_dofs@, n as nat, d) by {
                    lemma_count_all_but_one(flags, slave as int, reps@[d] as int);
                }
            }
            lookup
        },
    }
}

/// Some flagged position below `n` has exactly `r` flagged positions below it.
pub open spec fn rank_attained(flags: Seq<bool>, n: int, r: nat) -> bool {
    exists|d: int| 0 <= d < n && flags[d] && #[trigger] count_below(flags, d) == r
}

/// Some full DOF's representative has exactly `r` representatives below it.
pub open spec fn representative_rank_attained(reps: Seq<usize>, r: nat) -> bool {
    exists|d: int|
        0 <= d < reps.len() && count_below(is_root_flags(reps), #[trigger] reps[d] as int) == r
}

/// Dirichlet elimination renumbers the kept DOFs one-to-one and in order onto
/// `0..size`: kept DOFs keep their relative order, every reduced index is
/// below the reduced size, and every index below it belongs to a kept DOF.
pub proof fn law_dirichlet_numbering_is_ordered_bijection(n: nat, eliminated: Seq<usize>)
    ensures
        ({
            let flags = kept_flags(n, eliminated);
            &&& forall|d1: int, d2: int|
                0 <= d1 < d2 < n && flags[d1] ==> #[trigger] count_below(flags, d1)
                    < #[trigger] count_below(flags, d2)
            &&& forall|d: int|
                0 <= d < n && flags[d] ==> #[trigger] count_below(flags, d) < count_below(
                    flags,
                    n as int,
                )
            &&& forall|r: nat|
                r < count_below(flags, n as int) ==> #[trigger] rank_attained(flags, n as int, r)
        }),
{
    let flags = kept_flags(n, eliminated);
    assert forall|d1: int, d2: int|
        0 <= d1 < d2 < n && flags[d1] implies #[trigger] count_below(flags, d1)
        < #[trigger] count_below(flags, d2) by {
        lemma_count_below_monotone(flags, d1, d2);
    }
    assert forall|d: int|
        0 <= d < n && flags[d] implies #[trigger] count_below(flags, d) < count_below(
        flags,
        n as int,
    ) by {
        lemma_count_below_monotone(flags, d, n as int);
    }
    assert forall|r: nat| r < count_below(flags, n as int) implies #[trigger] rank_attained(
        flags,
        n as int,
        r,
    ) by {
        lemma_count_below_onto(flags, n as int, r);
    }
}

/// A 1D Dirichlet reduction eliminates exactly the closure DOFs of the listed
/// facets: a full DOF has no reduced index if and only if it is the boundary
/// DOF of a listed facet. Every other DOF keeps a reduced index; these are
/// consecutive from zero and follow the order of the full DOFs.
pub proof fn law_dirichlet_reduction_eliminates_listed_facets(
    n: usize,
    facets: Vec<usize>,
    boundary_dofs: Seq<Option<usize>>,
    lookup: DofLookup,
)
    requires
        reduction_resolves(
            DofReduction1D::Dirichlet { facets_to_eliminate: facets },
            boundary_dofs,
            n as nat,
        ),
        lookup.table().len() == n,
        lookup.size() == reduction_size(
            DofReduction1D::Dirichlet { facets_to_eliminate: facets },
            boundary_dofs,
            n as nat,
        ),
        forall|d: int|
            0 <= d < n ==> #[trigger] lookup.table()[d] == reduction_table(
                DofReduction1D::Dirichlet { facets_to_eliminate: facets },
                boundary_dofs,
                n as nat,
                d,
            ),
    ensures
        forall|d: int|
            0 <= d < n ==> (#[trigger] lookup.table()[d] is None <==> exists|i: int|
                0 <= i < facets@.len() && #[trigger] facets@[i] < boundary_dofs.len()
                    && boundary_dofs[facets@[i] as int] == Some(d as usize)),
        forall|d1: int, d2: int|
            0 <= d1 < d2 < n && #[trigger] lookup.table()[d1] is Some
                && #[trigger] lookup.table()[d2] is Some ==> lookup.table()[d1]->0
                < lookup.table()[d2]->0,
        forall|d: int|
            0 <= d < n && #[trigger] lookup.table()[d] is Some ==> lookup.table()[d]->0
                < lookup.size(),
        forall|r: usize| r < lookup.size() ==> #[trigger] lookup.table().contains(Some(r)),
{
    let elim = eliminated_dofs(facets@, boundary_dofs);
    let flags = kept_flags(n as nat, elim);
    law_dirichlet_numbering_is_ordered_bijection(n as nat, elim);
    assert forall|d: int| 0 <= d < n implies (#[trigger] lookup.table()[d] is None <==> exists|
        i: int,
    |
        0 <= i < facets@.len() && #[trigger] facets@[i] < boundary_dofs.len()
            && boundary_dofs[facets@[i] as int] == Some(d as usize)) by {
        if lookup.table()[d] is None {
            assert(elim.contains(d as usize));
            let i = choose|i: int| 0 <= i < elim.len() && elim[i] == d as usize;
            assert(boundary_dof_of(boundary_dofs, facets@[i]) is Some);
            assert(facets@[i] < boundary_dofs.len() && boundary_dofs[facets@[i] as int] == Some(
                d as usize,
            ));
        }
        if exists|i: int|
            0 <= i < facets@.len() && #[trigger] facets@[i] < boundary_dofs.len()
                && boundary_dofs[facets@[i] as int] == Some(d as usize) {
            let i = choose|i: int|
                0 <= i < facets@.len() && #[trigger] facets@[i] < boundary_dofs.len()
                    && boundary_dofs[facets@[i] as int] == Some(d as usize);
            assert(elim[i] == d as usize);
            assert(elim.contains(d as usize));
        }
    }
    assert forall|d: int| 0 <= d < n implies (#[trigger] lookup.table()[d] is Some <==> flags[d])
        && (flags[d] ==> lookup.table()[d] == Some(count_below(flags, d) as usize)
        && count_below(flags, d) < n) by {
        lemma_count_below_bounded(flags, d);
    }
    assert forall|d1: int, d2: int|
        0 <= d1 < d2 < n && #[trigger] lookup.table()[d1] is Some
            && #[trigger] lookup.table()[d2] is Some implies lookup.table()[d1]->0
        < lookup.table()[d2]->0 by {
        assert(count_below(flags, d1) < count_below(flags, d2));
    }
    assert forall|d: int| 0 <= d < n && #[trigger] lookup.table()[d] is Some implies lookup.table()[
        d
    ]->0 < lookup.size() by {
        assert(count_below(flags, d) < count_below(flags, n as int));
    }
    assert forall|r: usize| r < lookup.size() implies #[trigger] lookup.table().contains(
        Some(r),
    ) by {
        assert(rank_attained(flags, n as int, r as nat));
        let d = choose|d: int|
            0 <= d < n && flags[d] && #[trigger] count_below(flags, d) == r as nat;
        assert(lookup.table()[d] == Some(r));
    }
}

/// Numbering by representatives: two full DOFs share a reduced index exactly
/// when they share a representative, every reduced index is below the reduced
/// size, and every index below it is used.
pub proof fn law_representative_numbering(reps: Seq<usize>)
    requires
        representatives_wf(reps),
    ensures
        ({
            let flags = is_root_flags(reps);
            &&& forall|d1: int, d2: int|
                0 <= d1 < reps.len() && 0 <= d2 < reps.len() ==> (count_below(
                    flags,
                    #[trigger] reps[d1] as int,
                ) == count_below(flags, #[trigger] reps[d2] as int) <==> reps[d1] == reps[d2])
            &&& forall|d: int|
                0 <= d < reps.len() ==> count_below(flags, #[trigger] reps[d] as int)
                    < count_below(flags, reps.len() as int)
            &&& forall|r: nat|
                r < count_below(flags, reps.len() as int)
                    ==> #[trigger] representative_rank_attained(reps, r)
        }),
{
    let flags = is_root_flags(reps);
    let n = reps.len() as int;
    assert forall|d1: int, d2: int|
        0 <= d1 < reps.len() && 0 <= d2 < reps.len() implies (count_below(
        flags,
        #[trigger] reps[d1] as int,
    ) == count_below(flags, #[trigger] reps[d2] as int) <==> reps[d1] == reps[d2]) by {
        let a = reps[d1] as int;
        let b = reps[d2] as int;
        assert(flags[a] && flags[b]);
        if a < b {
            lemma_count_below_monotone(flags, a, b);
        } else if b < a {
            lemma_count_below_monotone(flags, b, a);
        }
    }
    assert forall|d: int| 0 <= d < reps.len() implies count_below(
        flags,
        #[trigger] reps[d] as int,
    ) < count_below(flags, n) by {
        assert(flags[reps[d] as int]);
        lemma_count_below_monotone(flags, reps[d] as int, n);
    }
    assert forall|r: nat| r < count_below(flags, n) implies #[trigger] representative_rank_attained(
        reps,
        r,
    ) by {
        lemma_count_below_onto(flags, n, r);
        let d = choose|d: int| 0 <= d < n && flags[d] && count_below(flags, d) == r;
        assert(reps[d] == d);
    }
}

/// A periodic 1D reduction gives both endpoint DOFs the same reduced index,
/// keeps every other pair of DOFs apart, and leaves one DOF fewer (none fewer
/// when the second endpoint's DOF lies outside the numbering).
pub proof fn law_periodic_reduction_identifies_endpoints(
    facets: [usize; 2],
    boundary_dofs: Seq<Option<usize>>,
    n: usize,
)
    requires
        reduction_resolves(DofReduction1D::Periodic { facets }, boundary_dofs, n as nat),
    ensures
        ({
            let reduction = DofReduction1D::Periodic { facets };
            let master = boundary_dof_of(boundary_dofs, facets[0])->0 as int;
            let slave = boundary_dof_of(boundary_dofs, facets[1])->0 as int;
            &&& reduction_table(reduction, boundary_dofs, n as nat, master) == reduction_table(
                reduction,
                boundary_dofs,
                n as nat,
                slave,
            )
            &&& forall|d1: int, d2: int|
                0 <= d1 < n && 0 <= d2 < n && d1 != d2 && !(d1 == slave && d2 == master) && !(d1
                    == master && d2 == slave) ==> #[trigger] reduction_table(
                    reduction,
                    boundary_dofs,
                    n as nat,
                    d1,
                ) != #[trigger] reduction_table(reduction, boundary_dofs, n as nat, d2)
            &&& forall|d: int|
                0 <= d < n ==> (#[trigger] reduction_table(reduction, boundary_dofs, n as nat, d) matches Some(
                    r,
                ) ==> r < reduction_size(reduction, boundary_dofs, n as nat))
            &&& reduction_size(reduction, boundary_dofs, n as nat) == if slave < n {
                n - 1
            } else {
                n as int
            }
        }),
{
}

/// Follow parent links from `i` until an element that is its own parent.
pub open spec fn root(parent: Seq<usize>, i: int) -> int
    decreases i,
{
    if 0 <= i < parent.len() && parent[i] < i {
        root(parent, parent[i] as int)
    } else {
        i
    }
}

/// Parent links never point upwards, so every chain ends at a root.
pub open spec fn forest_wf(parent: Seq<usize>) -> bool {
    forall|i: int| 0 <= i < parent.len() ==> #[trigger] parent[i] <= i
}

pub proof fn lemma_root_is_root(parent: Seq<usize>, i: int)
    requires
        forest_wf(parent),
        0 <= i < parent.len(),
    ensures
        0 <= root(parent, i) <= i,
        parent[root(parent, i)] == root(parent, i),
    decreases i,
{
    if parent[i] < i {
        lemma_root_is_root(parent, parent[i] as int);
    }
}

/// Pointing `x` straight at its root changes no element's root.
proof fn lemma_compress_keeps_roots(parent: Seq<usize>, x: int, j: int)
    requires
        forest_wf(parent),
        0 <= x < parent.len(),
        0 <= j < parent.len(),
    ensures
        root(parent.update(x, root(parent, x) as usize), j) == root(parent, j),
    decreases j,
{
    let r = root(parent, x);
    lemma_root_is_root(parent, x);
    let q = parent.update(x, r as usize);
    if j == x {
        if r < x {
            assert(q[x] == r);
            assert(q[r] == r);
            assert(root(q, r) == r);
            assert(root(q, x) == root(q, r));
        } else {
            assert(q =~= parent);
        }
    } else if parent[j] < j {
        lemma_compress_keeps_roots(parent, x, parent[j] as int);
        assert(q[j] == parent[j]);
        assert(root(q, j) == root(q, parent[j] as int));
    } else {
        assert(q[j] == parent[j]);
    }
}

/// Hanging root `hi` under root `lo` moves exactly the elements rooted at
/// `hi` to `lo`.
proof fn lemma_link_roots(parent: Seq<usize>, hi: int, lo: int, j: int)
    requires
        forest_wf(parent),
        0 <= lo < hi < parent.len(),
        parent[hi] == hi,
        parent[lo] == lo,
        0 <= j < parent.len(),
    ensures
        root(parent.update(hi, lo as usize), j) == if root(parent, j) == hi {
            lo
        } else {
            root(parent, j)
        },
    decreases j,
{
    let q = parent.update(hi, lo as usize);
    if j == hi {
        assert(q[hi] == lo);
        assert(q[lo] == lo);
        assert(root(q, lo) == lo);
        assert(root(q, hi) == root(q, lo));
    } else if parent[j] < j {
        lemma_link_roots(parent, hi, lo, parent[j] as int);
        assert(q[j] == parent[j]);
        assert(root(q, j) == root(q, parent[j] as int));
    } else {
        assert(q[j] == parent[j]);
    }
}

/// Union-find over `0..n` in which each class is named by its smallest member.
pub struct DisjointSet {
    parent: Vec<usize>,
}

impl DisjointSet {
    /// The parent links.
    pub closed spec fn parents(&self) -> Seq<usize> {
        self.parent@
    }

    /// Parent links never point upwards.
    pub closed spec fn wf(&self) -> bool {
        forest_wf(self.parent@)
    }

    /// Number of elements.
    pub open spec fn len(&self) -> nat {
        self.parents().len()
    }

    /// Every element in its own class.
    pub fn new(size: usize) -> (set: Self)
        ensures
            set.wf(),
            set.len() == size,
            forall|i: int| 0 <= i < size ==> #[trigger] root(set.parents(), i) == i,
    {
        let mut parent: Vec<usize> = Vec::with_capacity(size);
        let mut i: usize = 0;
        while i < size
            invariant
                i <= size,
                parent@.len() == i,
                forall|k: int| 0 <= k < i ==> #[trigger] parent@[k] == k,
            decreases size - i,
        {
            parent.push(i);
            i = i + 1;
        }
        DisjointSet { parent }
    }

    /// The class name of `item`; shortens the path it followed.
    pub fn find(&mut self, item: usize) -> (class: usize)
        requires
            old(self).wf(),
            item < old(self).len(),
        ensures
            final(self).wf(),
            final(self).len() == old(self).len(),
            class == root(old(self).parents(), item as int),
            class <= item,
            forall|j: int| 0 <= j < old(self).len() ==> #[trigger] root(final(self).parents(), j)
                == root(old(self).parents(), j),
            forall|j: int| item < j < old(self).len() ==> #[trigger] final(self).parents()[j]
                == old(self).parents()[j],
        decreases item,
    {
        proof {
            lemma_root_is_root(self.parent@, item as int);
        }
        let p = self.parent[item];
        if p != item {
            let ghost before = self.parents();
            let r = self.find(p);
            let ghost middle = self.parents();
            proof {
                assert(middle[item as int] == p);
                assert(root(middle, p as int) == root(before, p as int));
                assert(root(middle, item as int) == root(middle, p as int));
                assert(r as int == root(middle, item as int));
                lemma_root_is_root(middle, item as int);
                assert forall|j: int| 0 <= j < middle.len() implies root(
                    middle.update(item as int, r),
                    j,
                ) == root(middle, j) by {
                    lemma_compress_keeps_roots(middle, item as int, j);
                }
                assert forall|i: int| 0 <= i < middle.len() implies #[trigger] middle.update(
                    item as int,
                    r,
                )[i] <= i by {}
            }
            self.parent.set(item, r);
            proof {
                assert(self.parents() =~= middle.update(item as int, r));
                assert forall|j: int| 0 <= j < before.len() implies #[trigger] root(
                    self.parents(),
                    j,
                ) == root(before, j) by {
                    assert(root(middle, j) == root(before, j));
                }
            }
        }
        self.parent[item]
    }

    /// Merge the classes of `a` and `b`; the merged class keeps the smaller name.
    pub fn union(&mut self, a: usize, b: usize)
        requires
            old(self).wf(),
            a < old(self).len(),
            b < old(self).len(),
        ensures
            final(self).wf(),
            final(self).len() == old(self).len(),
            forall|j: int|
                0 <= j < old(self).len() ==> #[trigger] root(final(self).parents(), j) == merged_class(
                    root(old(self).parents(), a as int),
                    root(old(self).parents(), b as int),
                    root(old(self).parents(), j),
                ),
    {
        let ghost start = self.parents();
        let ghost (a0, b0) = (a as int, b as int);
        proof {
            lemma_root_is_root(start, a0);
            lemma_root_is_root(start, b0);
        }
        let a = self.find(a);
        let b = self.find(b);
        if a != b {
            let ghost middle = self.parents();
            let hi = if a < b { b } else { a };
            let lo = if a < b { a } else { b };
            proof {
                assert(root(start, a as int) == a);
                assert(root(start, b as int) == b);
                assert(root(middle, a as int) == root(start, a as int));
                assert(root(middle, b as int) == root(start, b as int));
                lemma_root_is_root(middle, a as int);
                lemma_root_is_root(middle, b as int);
                assert(root(middle, a as int) == a);
                assert(root(middle, b as int) == b);
                assert forall|j: int| 0 <= j < middle.len() implies root(
                    middle.update(hi as int, lo),
                    j,
                ) == merged_class(a as int, b as int, root(middle, j)) by {
                    lemma_link_roots(middle, hi as int, lo as int, j);
                }
            }
            self.parent.set(hi, lo);
        }
    }
}

/// Class name of an element whose class was `c` once the classes named `a`
/// and `b` merge under the smaller name.
pub open spec fn merged_class(a: int, b: int, c: int) -> int {
    if c == a || c == b {
        if a < b {
            a
        } else {
            b
        }
    } else {
        c
    }
}

/// Class name of DOF `d` once the first `k` pairs have been identified, each
/// merge keeping the smaller of the two class names.
pub open spec fn paired_class(pairs: Seq<(usize, usize)>, k: int, d: int) -> int
    decreases k,
{
    if k <= 0 || k > pairs.len() {
        d
    } else {
        merged_class(
            paired_class(pairs, k - 1, pairs[k - 1].0 as int),
            paired_class(pairs, k - 1, pairs[k - 1].1 as int),
            paired_class(pairs, k - 1, d),
        )
    }
}

/// Representatives for periodic identification of DOF pairs: every DOF is
/// sent to the smallest-named class it is joined to through the pairs.
pub fn periodic_representatives_2d(n: usize, pairs: &Vec<(usize, usize)>) -> (reps: Vec<usize>)
    requires
        forall|i: int| 0 <= i < pairs@.len() ==> #[trigger] pairs@[i].0 < n && pairs@[i].1 < n,
    ensures
        reps@.len() == n,
        representatives_wf(reps@),
        forall|d: int| 0 <= d < n ==> #[trigger] reps@[d] <= d,
        forall|d: int|
            0 <= d < n ==> #[trigger] reps@[d] as int == paired_class(
                pairs@,
                pairs@.len() as int,
                d,
            ),
{
    let mut classes = DisjointSet::new(n);
    let mut i: usize = 0;
    while i < pairs.len()
        invariant
            i <= pairs@.len(),
            classes.wf(),
            classes.len() == n,
            forall|k: int| 0 <= k < pairs@.len() ==> #[trigger] pairs@[k].0 < n && pairs@[k].1 < n,
            forall|d: int|
                0 <= d < n ==> #[trigger] root(classes.parents(), d) == paired_class(
                    pairs@,
                    i as int,
                    d,
                ),
        decreases pairs@.len() - i,
    {
        let (source, target) = pairs[i];
        let ghost before = classes.parents();
        classes.union(source, target);
        proof {
            assert forall|d: int| 0 <= d < n implies #[trigger] root(classes.parents(), d)
                == paired_class(pairs@, i + 1, d) by {
                assert(root(before, source as int) == paired_class(pairs@, i as int, source as int));
                assert(root(before, target as int) == paired_class(pairs@, i as int, target as int));
                assert(root(before, d) == paired_class(pairs@, i as int, d));
            }
        }
        i = i + 1;
    }
    let ghost full = classes.parents();
    let mut reps: Vec<usize> = Vec::with_capacity(n);
    let mut d: usize = 0;
    while d < n
        invariant
            d <= n,
            classes.wf(),
            classes.len() == n,
            forall|k: int| 0 <= k < n ==> #[trigger] root(classes.parents(), k) == root(full, k),
            forall|k: int|
                0 <= k < n ==> #[trigger] root(full, k) == paired_class(
                    pairs@,
                    pairs@.len() as int,
                    k,
                ),
            reps@.len() == d,
            forall|k: int| 0 <= k < d ==> #[trigger] reps@[k] as int == root(full, k),
        decreases n - d,
    {
        let class = classes.find(d);
        reps.push(class);
        d = d + 1;
    }
    proof {
        assert forall|k: int| 0 <= k < n implies #[trigger] reps@[k] <= k && reps@[k] < n && reps@[reps@[k] as int]
            == reps@[k] by {
            lemma_root_is_root(full, k);
            let r = root(full, k);
            assert(full[r] == r);
            assert(root(full, r) == r);
        }
    }
    reps
}

/// The facets of every pair in order: first and second facet of pair 0, then
/// of pair 1, and so on.
pub open spec fn pair_facets(pairs: Seq<[usize; 2]>) -> Seq<usize> {
    Seq::new(2 * pairs.len(), |i: int| pairs[i / 2][i % 2])
}

/// Whether a periodic facet pairing is usable: it has at least one pair, the
/// two facets of a pair differ, and no facet appears in more than one pair.
pub fn periodic_facet_pairs_valid(facet_pairs: &Vec<[usize; 2]>) -> (valid: bool)
    ensures
        valid == (facet_pairs@.len() > 0 && pair_facets(facet_pairs@).no_duplicates()),
{
    broadcast use vstd::std_specs::hash::group_hash_axioms;

    if facet_pairs.len() == 0 {
        return false;
    }
    let ghost all = pair_facets(facet_pairs@);
    let mut seen: std::collections::HashSet<usize> = std::collections::HashSet::new();
    let mut i: usize = 0;
    while i < facet_pairs.len()
        invariant
            i <= facet_pairs@.len(),
            all == pair_facets(facet_pairs@),
            all.len() == 2 * facet_pairs@.len(),
            all.subrange(0, 2 * i as int).no_duplicates(),
            seen@ == all.subrange(0, 2 * i as int).to_set(),
        decreases facet_pairs@.len() - i,
    {
        let source = facet_pairs[i][0];
        let target = facet_pairs[i][1];
        let ghost prefix = all.subrange(0, 2 * i as int);
        assert(all[2 * i as int] == source);
        assert(all[2 * i + 1] == target);
        assert(all.subrange(0, 2 * i + 2) =~= prefix.push(source).push(target));
        if source == target {
            assert(all[2 * i as int] == all[2 * i + 1]);
            return false;
        }
        let fresh_source = seen.insert(source);
        if !fresh_source {
            proof {
                let w = choose|w: int| 0 <= w < prefix.len() && prefix[w] == source;
                assert(all[w] == all[2 * i as int]);
            }
            return false;
        }
        let fresh_target = seen.insert(target);
        if !fresh_target {
            proof {
                let w = choose|w: int| 0 <= w < prefix.len() && prefix[w] == target;
                assert(all[w] == all[2 * i + 1]);
            }
            return false;
        }
        proof {
            let next = prefix.push(source).push(target);
            assert(next.to_set() =~= prefix.to_set().insert(source).insert(target)) by {
                broadcast use vstd::seq_lib::group_seq_properties;
            }
            assert forall|a: int, b: int|
                0 <= a < next.len() && 0 <= b < next.len() && a != b implies next[a]
                != next[b] by {
                if a < prefix.len() && b < prefix.len() {
                } else if a < prefix.len() {
                    assert(prefix.contains(next[a]));
                } else if b < prefix.len() {
                    assert(prefix.contains(next[b]));
                }
            }
        }
        i = i + 1;
    }
    assert(all.subrange(0, all.len() as int) =~= all);
    true
}

/// Once two DOFs share a class, identifying further pairs keeps them together.
proof fn lemma_joined_stays_joined(pairs: Seq<(usize, usize)>, k: int, m: int, x: int, y: int)
    requires
        0 <= k <= m <= pairs.len(),
        paired_class(pairs, k, x) == paired_class(pairs, k, y),
    ensures
        paired_class(pairs, m, x) == paired_class(pairs, m, y),
    decreases m - k,
{
    if k < m {
        lemma_joined_stays_joined(pairs, k, m - 1, x, y);
    }
}

/// Periodic identification joins the two DOFs of every pair: after all pairs
/// are processed, both ends of each pair carry the same class name.
pub proof fn law_periodic_pairs_share_representative(pairs: Seq<(usize, usize)>)
    ensures
        forall|i: int|
            0 <= i < pairs.len() ==> #[trigger] paired_class(
                pairs,
                pairs.len() as int,
                pairs[i].0 as int,
            ) == paired_class(pairs, pairs.len() as int, pairs[i].1 as int),
{
    assert forall|i: int| 0 <= i < pairs.len() implies #[trigger] paired_class(
        pairs,
        pairs.len() as int,
        pairs[i].0 as int,
    ) == paired_class(pairs, pairs.len() as int, pairs[i].1 as int) by {
        assert(paired_class(pairs, i + 1, pairs[i].0 as int) == paired_class(
            pairs,
            i + 1,
            pairs[i].1 as int,
        ));
        lemma_joined_stays_joined(
            pairs,
            i + 1,
            pairs.len() as int,
            pairs[i].0 as int,
            pairs[i].1 as int,
        );
    }
}

/// Every position below `map.len()` is the image of some index.
pub open spec fn covers_all(map: Seq<usize>) -> bool {
    forall|q: int| 0 <= q < map.len() ==> #[trigger] map_hits(map, q)
}

/// Some index of `map` is sent to `q`.
pub open spec fn map_hits(map: Seq<usize>, q: int) -> bool {
    exists|i: int| 0 <= i < map.len() && map[i] == q
}

/// Invert a map of `0..n` into `0..n`, such as the quadrature point on which
/// each nodal basis function sits: `Some` exactly when the map is a
/// permutation (no position hit twice, every position hit), and then the
/// inverse sends each position back to its index.
pub fn invert_permutation(map: &Vec<usize>) -> (inverse: Option<Vec<usize>>)
    requires
        forall|i: int| 0 <= i < map@.len() ==> #[trigger] map@[i] < map@.len(),
    ensures
        inverse is Some <==> (map@.no_duplicates() && covers_all(map@)),
        inverse matches Some(inverse) ==> {
            &&& inverse@.len() == map@.len()
            &&& forall|i: int| 0 <= i < map@.len() ==> #[trigger] inverse@[map@[i] as int] == i
            &&& forall|q: int| 0 <= q < map@.len() ==> #[trigger] map@[inverse@[q] as int] == q
        },
{
    let n = map.len();
    let mut inverse: Vec<usize> = Vec::with_capacity(n);
    let mut set: Vec<bool> = Vec::with_capacity(n);
    let mut q: usize = 0;
    while q < n
        invariant
            n == map@.len(),
            q <= n,
            inverse@.len() == q,
            set@.len() == q,
            forall|k: int| 0 <= k < q ==> !#[trigger] set@[k],
        decreases n - q,
    {
        inverse.push(0);
        set.push(false);
        q = q + 1;
    }
    let mut i: usize = 0;
    while i < n
        invariant
            n == map@.len(),
            forall|k: int| 0 <= k < n ==> #[trigger] map@[k] < n,
            i <= n,
            inverse@.len() == n,
            set@.len() == n,
            map@.take(i as int).no_duplicates(),
            forall|q: int| 0 <= q < n ==> (#[trigger] set@[q] <==> map@.take(i as int).contains(
                q as usize,
            )),
            forall|k: int| 0 <= k < i ==> #[trigger] inverse@[map@[k] as int] == k,
        decreases n - i,
    {
        let q = map[i];
        let ghost prefix = map@.take(i as int);
        assert(map@.take(i + 1) =~= prefix.push(q));
        if set[q] {
            proof {
                let w = choose|w: int| 0 <= w < prefix.len() && prefix[w] == q;
                assert(map@[w] == map@[i as int]);
            }
            return None;
        }
        set.set(q, true);
        inverse.set(q, i);
        proof {
            let next = map@.take(i + 1);
            assert forall|a: int, b: int| 0 <= a < b < next.len() implies next[a] != next[b] by {
                if b == i {
                    assert(prefix.contains(next[a]));
                }
            }
            assert forall|k: int| 0 <= k < i + 1 implies #[trigger] inverse@[map@[k] as int]
                == k by {
                if k < i {
                    assert(prefix[k] == map@[k]);
                    assert(prefix.contains(map@[k]));
                    assert(map@[k] != q);
                }
            }
            assert forall|p: int| 0 <= p < n implies (#[trigger] set@[p] <==> next.contains(
                p as usize,
            )) by {
                if next.contains(p as usize) && p != q {
                    let w = choose|w: int| 0 <= w < next.len() && next[w] == p as usize;
                    assert(prefix[w] == p);
                }
                if prefix.contains(p as usize) {
                    let w = choose|w: int| 0 <= w < prefix.len() && prefix[w] == p as usize;
                    assert(next[w] == p);
                }
                if p == q {
                    assert(next[i as int] == q);
                }
            }
        }
        i = i + 1;
    }
    assert(map@.take(n as int) =~= map@);
    let mut q: usize = 0;
    while q < n
        invariant
            n == map@.len(),
            q <= n,
            set@.len() == n,
            forall|p: int| 0 <= p < n ==> (#[trigger] set@[p] <==> map@.contains(p as usize)),
            forall|p: int| 0 <= p < q ==> #[trigger] set@[p],
        decreases n - q,
    {
        if !set[q] {
            proof {
                assert(!map_hits(map@, q as int)) by {
                    if map_hits(map@, q as int) {
                        let w = choose|w: int| 0 <= w < map@.len() && map@[w] == q as int;
                        assert(map@.contains(q));
                    }
                }
            }
            return None;
        }
        q = q + 1;
    }
    proof {
        assert forall|p: int| 0 <= p < n implies #[trigger] map_hits(map@, p) by {
            assert(set@[p]);
            assert(map@.contains(p as usize));
        }
        assert forall|p: int| 0 <= p < n implies #[trigger] map@[inverse@[p] as int] == p by {
            assert(map_hits(map@, p));
            let w = choose|w: int| 0 <= w < map@.len() && map@[w] == p;
            assert(inverse@[map@[w] as int] == w);
        }
    }
    Some(inverse)
}

/// A map of `0..n` into `0..n` that hits no position twice hits every
/// position, so a duplicate-free nodal map always has an inverse.
pub proof fn law_duplicate_free_map_is_onto(map: Seq<usize>)
    requires
        forall|i: int| 0 <= i < map.len() ==> #[trigger] map[i] < map.len(),
        map.no_duplicates(),
    ensures
        covers_all(map),
{
    broadcast use vstd::seq_lib::group_seq_properties;

    let n = map.len() as int;
    let wide = map.map_values(|x: usize| x as int);
    assert(wide.no_duplicates()) by {
        assert forall|a: int, b: int| 0 <= a < wide.len() && 0 <= b < wide.len() && a != b implies wide[a]
            != wide[b] by {
            assert(map[a] != map[b]);
        }
    }
    wide.unique_seq_to_set();
    let image = wide.to_set();
    let range = vstd::set_lib::set_int_range(0, n);
    vstd::set_lib::lemma_int_range(0, n);
    assert(image.subset_of(range)) by {
        assert forall|q: int| image.contains(q) implies range.contains(q) by {
            let w = choose|w: int| 0 <= w < wide.len() && wide[w] == q;
            assert(map[w] < n);
        }
    }
    vstd::set_lib::lemma_subset_equality(image, range);
    assert forall|q: int| 0 <= q < n implies #[trigger] map_hits(map, q) by {
        assert(range.contains(q));
        assert(image.contains(q));
        let w = choose|w: int| 0 <= w < wide.len() && wide[w] == q;
        assert(map[w] == q);
    }
}

/// In a well-formed union-find forest each class is named by its smallest
/// member: the name belongs to the class and lies below every member.
pub proof fn law_class_named_by_smallest_member(parent: Seq<usize>)
    requires
        forest_wf(parent),
    ensures
        forall|i: int|
            0 <= i < parent.len() ==> 0 <= #[trigger] root(parent, i) < parent.len() && root(
                parent,
                root(parent, i),
            ) == root(parent, i),
        forall|i: int, j: int|
            0 <= i < parent.len() && 0 <= j < parent.len() && #[trigger] root(parent, i)
                == #[trigger] root(parent, j) ==> root(parent, i) <= j,
{
    assert forall|i: int| 0 <= i < parent.len() implies 0 <= #[trigger] root(parent, i)
        < parent.len() && root(parent, root(parent, i)) == root(parent, i) by {
        lemma_root_is_root(parent, i);
    }
    assert forall|i: int, j: int|
        0 <= i < parent.len() && 0 <= j < parent.len() && #[trigger] root(parent, i)
            == #[trigger] root(parent, j) implies root(parent, i) <= j by {
        lemma_root_is_root(parent, j);
    }
}

/// Merging two classes joins them and moves no other class.
pub proof fn law_merge_joins_only_the_two_classes(a: int, b: int, c: int)
    ensures
        merged_class(a, b, a) == merged_class(a, b, b),
        c != a && c != b ==> merged_class(a, b, c) == c,
        merged_class(a, b, a) == vstd::math::min(a, b),
{
}

} // verus!
