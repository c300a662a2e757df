use ormatex_sem_nd::dofs::{
    build_dof_lookup_1d, dirichlet_lookup, identity_lookup, invert_permutation,
    lookup_from_representatives,
    periodic_facet_pairs_valid, periodic_representatives, periodic_representatives_2d,
    DisjointSet, DofLookup, DofReduction1D,
};

fn table(lookup: &DofLookup) -> Vec<Option<usize>> {
    (0..lookup.full_size()).map(|d| lookup.target_dof(d)).collect()
}

#[test]
fn identity_keeps_every_dof() {
    let lookup = identity_lookup(4);
    assert_eq!(lookup.reduced_size(), 4);
    assert_eq!(table(&lookup), vec![Some(0), Some(1), Some(2), Some(3)]);
    assert_eq!(identity_lookup(0).reduced_size(), 0);
}

#[test]
fn dirichlet_renumbers_kept_dofs_in_order() {
    let lookup = dirichlet_lookup(6, &vec![0, 4]);
    assert_eq!(lookup.reduced_size(), 4);
    assert_eq!(
        table(&lookup),
        vec![None, Some(0), Some(1), Some(2), None, Some(3)]
    );
}

#[test]
fn dirichlet_repeated_dof_is_eliminated_once() {
    let lookup = dirichlet_lookup(3, &vec![2, 2]);
    assert_eq!(lookup.reduced_size(), 2);
    assert_eq!(table(&lookup), vec![Some(0), Some(1), None]);
}

#[test]
fn dirichlet_ignores_dofs_outside_the_space() {
    let lookup = dirichlet_lookup(3, &vec![5, 1]);
    assert_eq!(lookup.reduced_size(), 2);
    assert_eq!(table(&lookup), vec![Some(0), None, Some(1)]);
}

#[test]
fn periodic_representatives_send_slave_to_master() {
    assert_eq!(periodic_representatives(4, 0, 3), vec![0, 1, 2, 0]);
    assert_eq!(periodic_representatives(3, 2, 0), vec![2, 1, 2]);
}

#[test]
fn representatives_share_reduced_indices() {
    let lookup = lookup_from_representatives(&vec![0, 1, 2, 0]);
    assert_eq!(lookup.reduced_size(), 3);
    assert_eq!(table(&lookup), vec![Some(0), Some(1), Some(2), Some(0)]);
    // A representative above its class members still numbers by rank.
    let lookup = lookup_from_representatives(&vec![2, 1, 2]);
    assert_eq!(lookup.reduced_size(), 2);
    assert_eq!(table(&lookup), vec![Some(1), Some(0), Some(1)]);
}

#[test]
fn one_dimensional_reductions_resolve_facets() {
    // Two cells of degree 2 on [0, 1]: full DOFs 0..5, endpoints are facets 0
    // and 2 carrying DOFs 0 and 4; facet 1 is interior.
    let boundary = vec![Some(0), None, Some(4)];
    let none = build_dof_lookup_1d(5, &DofReduction1D::Unreduced, &boundary);
    assert_eq!(none.reduced_size(), 5);
    let dirichlet = build_dof_lookup_1d(
        5,
        &DofReduction1D::Dirichlet {
            facets_to_eliminate: vec![0, 2],
        },
        &boundary,
    );
    assert_eq!(dirichlet.reduced_size(), 3);
    assert_eq!(
        table(&dirichlet),
        vec![None, Some(0), Some(1), Some(2), None]
    );
    let periodic = build_dof_lookup_1d(5, &DofReduction1D::Periodic { facets: [0, 2] }, &boundary);
    assert_eq!(periodic.reduced_size(), 4);
    assert_eq!(
        table(&periodic),
        vec![Some(0), Some(1), Some(2), Some(3), Some(0)]
    );
    let reversed = build_dof_lookup_1d(5, &DofReduction1D::Periodic { facets: [2, 0] }, &boundary);
    assert_eq!(reversed.reduced_size(), 4);
    assert_eq!(
        table(&reversed),
        vec![Some(3), Some(0), Some(1), Some(2), Some(3)]
    );
}

#[test]
fn disjoint_set_merges_under_smallest_member() {
    let mut set = DisjointSet::new(6);
    set.union(4, 5);
    set.union(5, 2);
    assert_eq!(set.find(4), 2);
    assert_eq!(set.find(5), 2);
    assert_eq!(set.find(2), 2);
    assert_eq!(set.find(3), 3);
    set.union(1, 0);
    set.union(0, 4);
    for item in [0, 1, 2, 4, 5] {
        assert_eq!(set.find(item), 0);
    }
    assert_eq!(set.find(3), 3);
    set.union(3, 3);
    assert_eq!(set.find(3), 3);
}

#[test]
fn periodic_pairs_join_classes_transitively() {
    // A 3x3 grid of DOFs; left column paired with right, bottom row with top.
    let pairs = vec![(0, 2), (3, 5), (6, 8), (0, 6), (1, 7), (2, 8)];
    let reps = periodic_representatives_2d(9, &pairs);
    assert_eq!(reps, vec![0, 1, 0, 3, 4, 3, 0, 1, 0]);
    let lookup = lookup_from_representatives(&reps);
    assert_eq!(lookup.reduced_size(), 4);
    assert_eq!(
        table(&lookup),
        vec![
            Some(0),
            Some(1),
            Some(0),
            Some(2),
            Some(3),
            Some(2),
            Some(0),
            Some(1),
            Some(0)
        ]
    );
    assert_eq!(periodic_representatives_2d(3, &vec![]), vec![0, 1, 2]);
}

#[test]
fn periodic_facet_pairs_must_be_disjoint() {
    assert!(periodic_facet_pairs_valid(&vec![[0, 3], [1, 2]]));
    assert!(!periodic_facet_pairs_valid(&vec![]));
    assert!(!periodic_facet_pairs_valid(&vec![[1, 1]]));
    assert!(!periodic_facet_pairs_valid(&vec![[0, 3], [3, 2]]));
    assert!(!periodic_facet_pairs_valid(&vec![[0, 3], [2, 0]]));
}

#[test]
fn nodal_maps_invert_only_when_permutations() {
    assert_eq!(invert_permutation(&vec![2, 0, 1]), Some(vec![1, 2, 0]));
    assert_eq!(invert_permutation(&vec![0, 1, 2, 3]), Some(vec![0, 1, 2, 3]));
    assert_eq!(invert_permutation(&vec![1, 1, 0]), None);
    assert_eq!(invert_permutation(&vec![]), Some(vec![]));
}

#[test]
fn cells_map_through_the_lookup() {
    // Two degree-2 intervals sharing DOF 2; DOF 0 eliminated.
    let lookup = dirichlet_lookup(5, &vec![0]);
    let cells = vec![vec![0, 1, 2], vec![2, 3, 4]];
    assert_eq!(
        lookup.map_cells(&cells),
        vec![
            vec![None, Some(0), Some(1)],
            vec![Some(1), Some(2), Some(3)]
        ]
    );
    assert_eq!(lookup.map_cells(&vec![]), Vec::<Vec<Option<usize>>>::new());
}
