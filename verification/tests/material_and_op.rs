use ormatex_sem_nd::material::{ConstantCoefficient, RegionCoefficient};
use ormatex_sem_nd::mesh::PhysicalRegion;
use ormatex_sem_nd::op::{row_chunk_size, thread_count};

#[test]
fn region_coefficient_falls_back_to_default() {
    let fluid = PhysicalRegion { dimension: 2, tag: 1 };
    let solid = PhysicalRegion { dimension: 2, tag: 2 };
    let other = PhysicalRegion { dimension: 2, tag: 3 };
    let coefficient = RegionCoefficient::new(vec![(fluid, 1.5f64), (solid, 20.0)], 0.25);
    assert_eq!(*coefficient.value(Some(fluid)), 1.5);
    assert_eq!(*coefficient.value(Some(solid)), 20.0);
    assert_eq!(*coefficient.value(Some(other)), 0.25);
    assert_eq!(*coefficient.value(None), 0.25);
    let replaced = RegionCoefficient::new(vec![(fluid, 1u32), (fluid, 2u32)], 0);
    assert_eq!(*replaced.value(Some(fluid)), 2);
    let constant = ConstantCoefficient(3.0f64);
    assert_eq!(constant.0, 3.0);
}

#[test]
fn row_chunks_cover_all_rows() {
    assert_eq!(thread_count(8, 3), 3);
    assert_eq!(thread_count(2, 100), 2);
    assert_eq!(thread_count(4, 0), 1);
    assert_eq!(row_chunk_size(10, 3), 4);
    assert_eq!(row_chunk_size(9, 3), 3);
    assert_eq!(row_chunk_size(0, 1), 1);
    for nrows in 0..40usize {
        for requested in 1..10usize {
            let threads = thread_count(requested, nrows);
            let chunk = row_chunk_size(nrows, threads);
            assert!(chunk >= 1);
            assert!(chunk * threads >= nrows);
            for row in 0..nrows {
                assert!(row / chunk < threads);
            }
        }
    }
}
