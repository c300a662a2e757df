use ormatex_sem_nd::mesh::{MeshMetadata, PhysicalRegion, PhysicalSelector};

#[test]
fn selects_cells_and_facets_by_tag_or_name() {
    let left = PhysicalRegion {
        dimension: 1,
        tag: 1,
    };
    let domain = PhysicalRegion {
        dimension: 2,
        tag: 10,
    };
    let metadata = MeshMetadata {
        cell_regions: vec![Some(domain)],
        facet_regions: vec![Some(left), None],
        physical_names: vec![(left, "left".to_owned()), (domain, "domain".to_owned())],
    };

    assert_eq!(metadata.boundary_facets(1), vec![0]);
    assert_eq!(metadata.boundary_facets("left"), vec![0]);
    assert_eq!(metadata.cell_indices(10), vec![0]);
    assert_eq!(metadata.cell_indices("domain"), vec![0]);
    assert!(metadata.boundary_facets("domain").is_empty());
    assert!(metadata.cell_indices("missing").is_empty());
}

#[test]
fn tag_selection_ignores_region_dimension() {
    let a = PhysicalRegion { dimension: 1, tag: 4 };
    let b = PhysicalRegion { dimension: 2, tag: 4 };
    let c = PhysicalRegion { dimension: 1, tag: 5 };
    let metadata = MeshMetadata {
        cell_regions: vec![Some(b), None, Some(c), Some(b)],
        facet_regions: vec![Some(c), Some(a), None, Some(a)],
        physical_names: vec![],
    };
    assert_eq!(metadata.boundary_facets(4), vec![1, 3]);
    assert_eq!(metadata.cell_indices(4), vec![0, 3]);
    assert_eq!(metadata.cell_indices(5), vec![2]);
    assert!(metadata.cell_indices(6).is_empty());
}

#[test]
fn named_selection_uses_dimension_aware_names() {
    let facet_one = PhysicalRegion { dimension: 1, tag: 1 };
    let cell_one = PhysicalRegion { dimension: 2, tag: 1 };
    let metadata = MeshMetadata {
        cell_regions: vec![Some(cell_one), Some(cell_one)],
        facet_regions: vec![Some(facet_one), Some(cell_one)],
        physical_names: vec![
            (facet_one, "inlet".to_owned()),
            (cell_one, "fluid".to_owned()),
        ],
    };
    assert_eq!(metadata.boundary_facets("inlet"), vec![0]);
    assert_eq!(metadata.boundary_facets(String::from("fluid")), vec![1]);
    assert_eq!(metadata.cell_indices(PhysicalSelector::Name("fluid".to_owned())), vec![0, 1]);
    // Tag selection does not look at names.
    assert_eq!(metadata.boundary_facets(1), vec![0, 1]);
}

#[test]
fn later_physical_name_replaces_earlier_one() {
    let region = PhysicalRegion { dimension: 1, tag: 2 };
    let metadata = MeshMetadata {
        cell_regions: vec![],
        facet_regions: vec![Some(region)],
        physical_names: vec![(region, "old".to_owned()), (region, "new".to_owned())],
    };
    assert_eq!(metadata.physical_name(region).map(String::as_str), Some("new"));
    assert!(metadata.boundary_facets("old").is_empty());
    assert_eq!(metadata.boundary_facets("new"), vec![0]);
}

#[test]
fn cell_and_facet_metadata_default_outside_range() {
    let region = PhysicalRegion { dimension: 2, tag: 7 };
    let metadata = MeshMetadata {
        cell_regions: vec![None, Some(region)],
        facet_regions: vec![],
        physical_names: vec![],
    };
    let cell = metadata.cell(1);
    assert_eq!(cell.local_index, 1);
    assert_eq!(cell.physical_region, Some(region));
    assert_eq!(metadata.cell(0).physical_region, None);
    assert_eq!(metadata.cell(5).local_index, 5);
    assert_eq!(metadata.cell(5).physical_region, None);
    let facet = metadata.facet(3);
    assert_eq!(facet.local_index, 3);
    assert_eq!(facet.physical_region, None);
    metadata.validate(2, 9);
    let empty = MeshMetadata::default();
    assert!(empty.cell_regions.is_empty());
    empty.validate(4, 4);
}

#[test]
fn selectors_compare_by_kind_and_value() {
    assert_eq!(PhysicalSelector::from(3usize), PhysicalSelector::Tag(3));
    assert_ne!(PhysicalSelector::Tag(3), PhysicalSelector::Tag(4));
    assert_eq!(
        PhysicalSelector::from("inlet"),
        PhysicalSelector::Name("inlet".to_string())
    );
    assert_ne!(
        PhysicalSelector::from("inlet"),
        PhysicalSelector::from("outlet")
    );
    assert_ne!(
        PhysicalSelector::Tag(1),
        PhysicalSelector::Name("1".to_string())
    );
}
