use ormatex_sem_nd::kernels::sets::{ResidualKernelSet, ResidualKernelSum};
use ormatex_sem_nd::kernels::basic::{KernelConservationLaw1D, KernelMass};
use ormatex_sem_nd::kernels::common::{
    field_names_agree, local_index, merge_field_names, names_fit_count, owned_names, same_names,
    union_field, union_fields, StateBoundaryTerms, TensorResidualKernelSum,
};
use ormatex_sem_nd::kernels::edac::{
    check, check_drift_outflow_1d, directional_field_names, drift_field_names,
    drift_field_names_1d, field_names, KernelEdacNoSlipWall2D, KernelEdacSlipWall2D,
    TensorKernelEdacNoSlipWall2D, TensorKernelEdacSlipWall2D, ALPHA_1D, ALPHA_2D,
};

fn strings(names: &[&str]) -> Vec<String> {
    names.iter().map(|name| name.to_string()).collect()
}

#[test]
fn fluid_and_drift_field_layouts() {
    assert_eq!(field_names(), Some(strings(&["u", "v", "p"])));
    assert_eq!(directional_field_names(), Some(strings(&["u", "v", "p"])));
    let drift = drift_field_names().unwrap();
    assert_eq!(drift, strings(&["u", "v", "p", "alpha"]));
    assert_eq!(drift[ALPHA_2D], "alpha");
    let drift_1d = drift_field_names_1d().unwrap();
    assert_eq!(drift_1d, strings(&["u", "p", "alpha"]));
    assert_eq!(drift_1d[ALPHA_1D], "alpha");
}

#[test]
fn context_checks() {
    assert!(check(2, 1, 3));
    assert!(!check(1, 1, 3));
    assert!(!check(2, 2, 3));
    assert!(!check(2, 1, 4));
    assert!(check_drift_outflow_1d(1, 1, 3));
    assert!(!check_drift_outflow_1d(2, 1, 3));
}

#[test]
fn name_lists_compare_and_merge() {
    let a = strings(&["u", "v", "p"]);
    assert!(same_names(&a, &strings(&["u", "v", "p"])));
    assert!(!same_names(&a, &strings(&["v", "u", "p"])));
    assert!(!same_names(&a, &strings(&["u", "v"])));
    assert!(field_names_agree(&Some(a.clone()), &None));
    assert!(field_names_agree(&None, &None));
    assert!(!field_names_agree(&Some(a.clone()), &Some(strings(&["u"]))));
    assert_eq!(merge_field_names(None, Some(a.clone())), Some(a.clone()));
    assert_eq!(merge_field_names(Some(a.clone()), None), Some(a.clone()));
    assert_eq!(merge_field_names(None, None), None);
    assert!(names_fit_count(&Some(a.clone()), 3));
    assert!(!names_fit_count(&Some(a), 2));
    assert!(names_fit_count(&None, 7));
    assert_eq!(owned_names(&["x", "y"]), strings(&["x", "y"]));
}

#[test]
fn union_fields_keeps_first_occurrence() {
    let mut fields = Vec::new();
    assert_eq!(union_field(&mut fields, "u"), 0);
    assert_eq!(union_field(&mut fields, "p"), 1);
    assert_eq!(union_field(&mut fields, "u"), 0);
    assert_eq!(fields, strings(&["u", "p"]));
    let map = union_fields(&mut fields, &strings(&["p", "alpha", "u"]));
    assert_eq!(map, vec![1, 2, 0]);
    assert_eq!(fields, strings(&["u", "p", "alpha"]));
    assert_eq!(local_index(&map, 0), Some(2));
    assert_eq!(local_index(&map, 2), Some(1));
    assert_eq!(local_index(&map, 5), None);
    assert_eq!(local_index(&vec![3, 3], 3), Some(0));
}

#[test]
fn union_fields_appends_new_names_in_order_of_first_appearance() {
    let mut fields = strings(&["u", "p"]);
    let map = union_fields(&mut fields, &strings(&["beta", "p", "alpha", "beta"]));
    assert_eq!(fields, strings(&["u", "p", "beta", "alpha"]));
    assert_eq!(map, vec![2, 1, 3, 2]);
    let map = union_fields(&mut fields, &Vec::new());
    assert!(map.is_empty());
    assert_eq!(fields, strings(&["u", "p", "beta", "alpha"]));
}

#[test]
fn boundary_terms_entity_kernel_wins_whatever_the_call_order() {
    let terms = StateBoundaryTerms::new()
        .with_entities(vec![3], "outflow")
        .with_default("wall")
        .with_default("slip");
    assert_eq!(terms.kernel_for(3), Some(&"outflow"));
    assert_eq!(terms.kernel_for(4), Some(&"slip"));
}

#[test]
fn boundary_terms_prefer_entity_kernels() {
    let empty: StateBoundaryTerms<&str> = StateBoundaryTerms::new();
    assert_eq!(empty.kernel_for(0), None);
    let terms = StateBoundaryTerms::new().with_default("wall");
    assert!(terms.accepts_entities(&vec![2, 5]));
    assert!(!terms.accepts_entities(&vec![2, 2]));
    let terms = terms.with_entities(vec![2, 5], "outflow");
    assert!(!terms.accepts_entities(&vec![5]));
    assert!(terms.accepts_entities(&vec![7]));
    let terms = terms.with_entities(vec![7], "inflow");
    assert_eq!(terms.kernel_for(0), Some(&"wall"));
    assert_eq!(terms.kernel_for(2), Some(&"outflow"));
    assert_eq!(terms.kernel_for(5), Some(&"outflow"));
    assert_eq!(terms.kernel_for(7), Some(&"inflow"));
    let only_entities = StateBoundaryTerms::new().with_entities(vec![1], 10u32);
    assert_eq!(only_entities.kernel_for(1), Some(&10));
    assert_eq!(only_entities.kernel_for(0), None);
}

#[test]
fn kernel_constructors_and_sums() {
    let _ = KernelMass::new();
    let law = KernelConservationLaw1D::new(5u8);
    assert_eq!(law.flux, 5);
    let _ = KernelEdacNoSlipWall2D::new();
    let _ = TensorKernelEdacNoSlipWall2D::new();
    let _ = KernelEdacSlipWall2D::new();
    let _ = TensorKernelEdacSlipWall2D::new();
    let sum = TensorResidualKernelSum::from_kernel(1u8).with(2u16).with(3u32);
    assert_eq!(*sum.second(), 3u32);
    assert_eq!(*sum.first().second(), 2u16);
    assert_eq!(*sum.first().first().first(), 1u8);
}

#[test]
fn kernel_sum_keeps_one_ordered_field_layout() {
    let sum = ResidualKernelSum::from_kernel("mass", 2, None);
    assert_eq!(sum.nfields(), 2);
    assert_eq!(sum.field_names(), None);
    assert!(!sum.can_add(3, &None));
    assert!(!sum.can_add(2, &Some(strings(&["u"]))));
    assert!(sum.can_add(2, &Some(strings(&["u", "p"]))));
    let sum = sum.with("flux", 2, Some(strings(&["u", "p"])));
    assert_eq!(sum.field_names(), Some(strings(&["u", "p"])));
    assert!(!sum.can_add(2, &Some(strings(&["p", "u"]))));
    assert!(sum.can_add(2, &None));
    let sum = sum.with("source", 2, None);
    assert_eq!(sum.field_names(), Some(strings(&["u", "p"])));
    assert_eq!(sum.kernels(), &vec!["mass", "flux", "source"]);
}

#[test]
fn kernel_set_unions_fields_and_maps_each_kernel() {
    let set = ResidualKernelSet::from_kernel(
        "momentum",
        &strings(&["u", "v", "p"]),
        &strings(&["u", "v"]),
    );
    assert_eq!(set.nfields(), 3);
    assert_eq!(set.input_map(0), &vec![0, 1, 2]);
    assert_eq!(set.output_map(0), &vec![0, 1]);
    let set = set.with("drift", &strings(&["alpha", "u"]), &strings(&["alpha", "c"]));
    assert_eq!(set.field_names(), strings(&["u", "v", "p", "alpha", "c"]));
    assert_eq!(set.input_map(0), &vec![0, 1, 2]);
    assert_eq!(set.input_map(1), &vec![3, 0]);
    assert_eq!(set.output_map(1), &vec![3, 4]);
    assert_eq!(set.local_equation(0, 1), Some(1));
    assert_eq!(set.local_equation(0, 2), None);
    assert_eq!(set.local_equation(1, 4), Some(1));
    assert_eq!(set.local_unknown(1, 0), Some(1));
    assert_eq!(set.local_unknown(1, 1), None);
    assert_eq!(set.kernels(), &vec!["momentum", "drift"]);
}
