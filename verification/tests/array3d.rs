use voxels::array3d::{Array, ArrayOwned, Dims as _, DynamicDims, StaticDims};
use voxels::math::{V3usize, V3};

#[derive(Clone, Default, Debug)]
struct Dims;

impl StaticDims for Dims {
    const X: usize = 3;
    const Y: usize = 3;
    const Z: usize = 3;
}

#[test]
fn slice() {
    let array: ArrayOwned<_, Dims> = Array::generate(|ijk| ijk != V3::new(1, 1, 1));

    let x0 = array.slice(V3::new(0, 0, 0), V3::new(1, 3, 3));
    assert_eq!(x0.dims(), V3::new(1, 3, 3));
    assert_eq!(x0.volume(), 9);
    assert!(x0.iter().into_iter().all(|b| *b));

    let z1 = array.slice(V3::new(0, 0, 1), V3::new(3, 3, 1));
    assert_eq!(z1.iter().into_iter().filter(|b| **b).count(), 8);
}

#[test]
fn copy_from() {
    type Array = ArrayOwned<i32, Dims>;

    let array = Array::new((0..27).collect());
    let mut dest = Array::new_filled(99);

    dest.slice_mut(V3::zeros(), dest.dims())
        .copy_from(&array.slice(V3::zeros(), array.dims()));

    assert_eq!(array, dest);
}

#[test]
fn flat_index_is_row_major() {
    // i * (Y * Z) + j * Z + k on an extent whose sides differ
    let dims = DynamicDims(V3::new(2, 3, 4));
    assert_eq!(dims.volume(), 24);
    assert_eq!(dims.flat_index(V3::new(0, 0, 0)), 0);
    assert_eq!(dims.flat_index(V3::new(0, 0, 3)), 3);
    assert_eq!(dims.flat_index(V3::new(0, 1, 0)), 4);
    assert_eq!(dims.flat_index(V3::new(0, 2, 3)), 11);
    assert_eq!(dims.flat_index(V3::new(1, 0, 0)), 12);
    assert_eq!(dims.flat_index(V3::new(1, 2, 3)), 23);
}

#[test]
fn flat_index_is_unique_and_in_range() {
    let dims = DynamicDims(V3::new(3, 4, 5));
    let mut seen = vec![false; 60];
    for i in 0..3 {
        for j in 0..4 {
            for k in 0..5 {
                let flat = dims.flat_index(V3::new(i, j, k));
                assert!(flat < 60);
                assert!(!seen[flat]);
                seen[flat] = true;
            }
        }
    }
    assert!(seen.into_iter().all(|s| s));
}

#[test]
fn indices_come_once_each_in_row_major_order() {
    let array = Array::new_with_dims(V3::new(2, 3, 4), (0..24).collect::<Vec<u32>>());
    let mut it = array.indices();
    let mut got: Vec<V3usize> = Vec::new();
    while let Some(ijk) = it.next() {
        got.push(ijk);
    }
    assert!(it.next().is_none());
    let mut expected = Vec::new();
    for i in 0..2 {
        for j in 0..3 {
            for k in 0..4 {
                expected.push(V3::new(i, j, k));
            }
        }
    }
    assert_eq!(got, expected);
    let pairs = array.indexed_iter();
    assert_eq!(pairs.len(), 24);
    for (n, (ijk, cell)) in pairs.into_iter().enumerate() {
        assert_eq!(ijk, expected[n]);
        assert_eq!(*cell, n as u32);
        assert_eq!(*array.get(ijk), n as u32);
    }
}

#[test]
fn array_with_an_empty_side_has_no_index() {
    for dims in [V3::new(0, 3, 3), V3::new(3, 0, 3), V3::new(3, 3, 0), V3::new(0, 0, 0)] {
        let array = Array::new_with_dims(dims, Vec::<u8>::new());
        assert_eq!(array.volume(), 0);
        assert!(array.indices().next().is_none());
        assert!(array.iter().is_empty());
    }
}

#[test]
fn generate_calls_once_for_each_index() {
    let mut calls = Vec::new();
    let array = Array::generate_with_dims(V3::new(2, 2, 2), |ijk: V3usize| {
        calls.push(ijk);
        ijk.x * 100 + ijk.y * 10 + ijk.z
    });
    assert_eq!(calls.len(), 8);
    assert_eq!(calls[0], V3::new(0, 0, 0));
    assert_eq!(calls[1], V3::new(0, 0, 1));
    assert_eq!(calls[7], V3::new(1, 1, 1));
    assert_eq!(array.iter().into_iter().copied().collect::<Vec<_>>(), vec![0, 1, 10, 11, 100, 101, 110, 111]);
    assert_eq!(array.dims(), V3::new(2, 2, 2));
}

#[test]
fn get_mut_changes_one_cell() {
    let mut array = Array::new_with_dims(V3::new(2, 3, 4), vec![0u8; 24]);
    *array.get_mut(V3::new(1, 2, 3)) = 7;
    *array.get_mut(V3::new(0, 1, 0)) = 9;
    let cells: Vec<u8> = array.iter().into_iter().copied().collect();
    for (n, cell) in cells.iter().enumerate() {
        let expected = match n {
            23 => 7,
            4 => 9,
            _ => 0,
        };
        assert_eq!(*cell, expected);
    }
}

#[test]
fn slice_reads_through_its_offset() {
    let array = Array::generate_with_dims(V3::new(4, 5, 6), |ijk: V3usize| (ijk.x, ijk.y, ijk.z));
    let part = array.slice(V3::new(1, 2, 3), V3::new(2, 2, 3));
    assert_eq!(part.dims(), V3::new(2, 2, 3));
    assert_eq!(part.volume(), 12);
    assert_eq!(*part.get(V3::new(0, 0, 0)), (1, 2, 3));
    assert_eq!(*part.get(V3::new(1, 1, 2)), (2, 3, 5));
    let cells = part.indexed_iter();
    assert_eq!(cells.len(), 12);
    for (ijk, cell) in cells {
        assert_eq!(*cell, (ijk.x + 1, ijk.y + 2, ijk.z + 3));
    }
    // a view of a view starts where both offsets add up to
    let inner = part.slice(V3::new(1, 0, 1), V3::new(1, 2, 2));
    assert_eq!(*inner.get(V3::new(0, 0, 0)), (2, 2, 4));
    assert_eq!(*inner.get(V3::new(0, 1, 1)), (2, 3, 5));
    let whole = array.whole_slice();
    assert_eq!(whole.dims(), array.dims());
    assert_eq!(whole.iter(), array.iter());
}

#[test]
fn copy_into_a_view_leaves_the_rest() {
    let src = Array::new_with_dims(V3::new(1, 2, 2), vec![1, 2, 3, 4]);
    let mut dest = Array::new_with_dims(V3::new(2, 3, 3), vec![0; 18]);
    dest.slice_mut(V3::new(1, 1, 0), V3::new(1, 2, 2)).copy_from(&src);
    let cells: Vec<i32> = dest.iter().into_iter().copied().collect();
    let expected = vec![
        0, 0, 0,  0, 0, 0,  0, 0, 0,
        0, 0, 0,  1, 2, 0,  3, 4, 0,
    ];
    assert_eq!(cells, expected);
    // an owned array is copied into as a whole
    let mut twin = Array::new_with_dims(V3::new(1, 2, 2), vec![9, 9, 9, 9]);
    twin.copy_from(&src);
    assert_eq!(twin, src);
    assert!(twin != Array::new_with_dims(V3::new(2, 2, 1), vec![1, 2, 3, 4]));
    assert!(twin != Array::new_with_dims(V3::new(1, 2, 2), vec![1, 2, 3, 5]));
}

#[test]
fn mutable_iteration_reaches_each_cell_once() {
    let mut array = Array::new_with_dims(V3::new(2, 2, 3), vec![0usize; 12]);
    for (ijk, cell) in array.indexed_iter_mut() {
        *cell += ijk.x * 100 + ijk.y * 10 + ijk.z + 1;
    }
    assert_eq!(
        array.iter().into_iter().copied().collect::<Vec<_>>(),
        vec![1, 2, 3, 11, 12, 13, 101, 102, 103, 111, 112, 113]
    );
    for (n, cell) in array.iter_mut().into_iter().enumerate() {
        *cell = n;
    }
    assert_eq!(array.iter().into_iter().copied().collect::<Vec<_>>(), (0..12).collect::<Vec<_>>());
    // through a view only the cells of the view are reached
    let mut part = array.slice_mut(V3::new(0, 1, 1), V3::new(2, 1, 2));
    let reached: Vec<V3usize> = part
        .indexed_iter_mut()
        .into_iter()
        .map(|(ijk, cell)| {
            *cell = 99;
            ijk
        })
        .collect();
    assert_eq!(reached, vec![V3::new(0, 0, 0), V3::new(0, 0, 1), V3::new(1, 0, 0), V3::new(1, 0, 1)]);
    assert_eq!(
        array.iter().into_iter().copied().collect::<Vec<_>>(),
        vec![0, 1, 2, 3, 99, 99, 6, 7, 8, 9, 99, 99]
    );
}
