use parquet_levels::levels::{to_levels, LevelsError};
use parquet_levels::nested::{is_well_formed, num_values, ListNested, Nested};
use parquet_levels::stream::{to_levels_streaming, LevelIter};

fn list(offsets: Vec<usize>, validity: Option<Vec<bool>>, is_optional: bool) -> Nested {
    Nested::List(ListNested::new(offsets, validity, is_optional))
}

fn list_struct_list_nullable() -> Vec<Nested> {
    let a = [true, false, true, true, true, true, false, true];
    let b = [
        true, true, true, false, true, true, true, true, true, true, true, true,
    ];
    let c = [
        true, true, true, false, true, false, false, false, true, true, true, true,
    ];
    let d = [true, true, true, true, true, false, true, true];
    vec![
        list(vec![0, 2, 2, 5, 8, 8, 11, 11, 12], Some(a.to_vec()), true),
        Nested::Struct(Some(b.to_vec()), true, 12),
        list(
            vec![0, 1, 2, 3, 3, 4, 4, 4, 4, 5, 6, 8, 8],
            Some(c.to_vec()),
            true,
        ),
        Nested::Primitive(Some(d.to_vec()), true, 8),
    ]
}

#[test]
fn both_levels_of_list_struct_list_nullable() {
    let nested = list_struct_list_nullable();
    let (def, rep) = to_levels(&nested).unwrap();
    assert_eq!(def, vec![6, 6, 0, 6, 2, 6, 3, 3, 3, 1, 6, 5, 6, 6, 0, 4]);
    assert_eq!(rep, vec![0, 1, 0, 0, 1, 1, 0, 1, 1, 0, 0, 1, 1, 2, 0, 0]);
    assert_eq!(def.len(), num_values(&nested));
    assert_eq!(rep[0], 0);
    // optional list (2) + optional struct (1) + optional list (2) + optional leaf (1)
    assert!(def.iter().all(|d| *d <= 6));
}

#[test]
fn required_list_of_required_values() {
    let nested = vec![
        list(vec![0, 2, 2, 5, 8, 8, 11, 11, 12], None, false),
        Nested::Primitive(None, false, 12),
    ];
    let (def, rep) = to_levels(&nested).unwrap();
    assert_eq!(def, vec![1, 1, 0, 1, 1, 1, 1, 1, 1, 0, 1, 1, 1, 0, 1]);
    assert_eq!(rep, vec![0, 1, 0, 0, 1, 1, 0, 1, 1, 0, 0, 1, 1, 0, 0]);
    assert_eq!(num_values(&nested), 15);
}

#[test]
fn large_list_matches_list() {
    let nested = vec![
        Nested::LargeList(ListNested::new(vec![0, 2, 2, 3], Some(vec![true, true, false]), true)),
        Nested::Primitive(Some(vec![true, false, true]), true, 3),
    ];
    let (def, rep) = to_levels(&nested).unwrap();
    // [[1, None], [], None]
    assert_eq!(def, vec![3, 2, 1, 0]);
    assert_eq!(rep, vec![0, 1, 0, 0]);
}

#[test]
fn fixed_size_list_levels() {
    let nested = vec![
        Nested::FixedSizeList { validity: None, is_optional: false, width: 2, len: 3 },
        Nested::Primitive(None, false, 6),
    ];
    let (def, rep) = to_levels(&nested).unwrap();
    assert_eq!(def, vec![1, 1, 1, 1, 1, 1]);
    assert_eq!(rep, vec![0, 1, 0, 1, 0, 1]);
    assert_eq!(num_values(&nested), 6);
}

#[test]
fn fixed_size_list_inside_list_uses_its_own_positions() {
    // [[[a, b], [c, d]], [[e, f]]] with a null in the fixed-size lists
    let nested = vec![
        list(vec![0, 2, 3], None, false),
        Nested::FixedSizeList {
            validity: Some(vec![true, true, false]),
            is_optional: true,
            width: 2,
            len: 3,
        },
        Nested::Primitive(Some(vec![true, true, true, false, true, true]), true, 6),
    ];
    let (def, rep) = to_levels(&nested).unwrap();
    assert_eq!(def, vec![4, 4, 4, 3, 1]);
    assert_eq!(rep, vec![0, 2, 1, 2, 0]);
}

#[test]
fn zero_width_fixed_size_list() {
    let nested = vec![
        Nested::FixedSizeList { validity: None, is_optional: true, width: 0, len: 2 },
        Nested::Primitive(None, true, 0),
    ];
    let (def, rep) = to_levels(&nested).unwrap();
    assert_eq!(def, vec![1, 1]);
    assert_eq!(rep, vec![0, 0]);
    assert_eq!(num_values(&nested), 2);
}

#[test]
fn empty_path_has_no_levels() {
    let (def, rep) = to_levels(&[]).unwrap();
    assert!(def.is_empty());
    assert!(rep.is_empty());
}

#[test]
fn empty_root_has_no_levels() {
    let nested = vec![list(vec![0], None, true), Nested::Primitive(None, true, 0)];
    let (def, rep) = to_levels(&nested).unwrap();
    assert!(def.is_empty());
    assert!(rep.is_empty());
    assert_eq!(num_values(&nested), 0);
}

#[test]
fn decreasing_offsets_are_refused() {
    let nested = vec![list(vec![0, 2, 1], None, true), Nested::Primitive(None, true, 2)];
    assert!(!is_well_formed(&nested));
    assert_eq!(to_levels(&nested), Err(LevelsError::MalformedNested));
}

#[test]
fn short_validity_is_refused() {
    let nested = vec![
        Nested::Struct(None, true, 3),
        Nested::Primitive(Some(vec![true, false]), true, 3),
    ];
    assert_eq!(to_levels(&nested), Err(LevelsError::MalformedNested));
}

#[test]
fn path_without_leaf_is_refused() {
    let nested = vec![Nested::Struct(None, true, 3)];
    assert_eq!(to_levels(&nested), Err(LevelsError::MalformedNested));
    let nested = vec![
        Nested::Primitive(None, true, 3),
        Nested::Primitive(None, true, 3),
    ];
    assert_eq!(to_levels(&nested), Err(LevelsError::MalformedNested));
}

#[test]
fn child_shorter_than_offsets_is_refused() {
    let nested = vec![list(vec![0, 4], None, true), Nested::Primitive(None, true, 3)];
    assert_eq!(to_levels(&nested), Err(LevelsError::MalformedNested));
}

#[test]
fn null_struct_short_circuits_deeper_levels() {
    let nested = vec![
        Nested::Struct(Some(vec![true, false]), true, 2),
        list(vec![0, 2, 4], Some(vec![true, true]), true),
        Nested::Primitive(Some(vec![true, true, true, true]), true, 4),
    ];
    let (def, rep) = to_levels(&nested).unwrap();
    assert_eq!(def, vec![4, 4, 0]);
    assert_eq!(rep, vec![0, 1, 0]);
}

#[test]
fn lengths_match_for_rows_of_rows() {
    let nested = vec![
        list(vec![0, 1, 1, 3, 5, 5, 8, 8, 9], None, true),
        list(vec![0, 2, 4, 5, 7, 8, 9, 10, 11, 12], None, true),
        Nested::Primitive(None, false, 12),
    ];
    let (def, rep) = to_levels(&nested).unwrap();
    assert_eq!(def.len(), num_values(&nested));
    assert_eq!(rep.len(), def.len());
    assert_eq!(rep[0], 0);
    assert!(def.iter().all(|d| *d <= 4));
}

fn sample_paths() -> Vec<Vec<Nested>> {
    vec![
        list_struct_list_nullable(),
        vec![
            list(vec![0, 2, 2, 5, 8, 8, 11, 11, 12], None, false),
            Nested::Primitive(None, false, 12),
        ],
        vec![
            Nested::Struct(None, true, 12),
            list(
                vec![0, 2, 2, 5, 8, 8, 11, 11, 12, 13, 15, 18, 18],
                Some(vec![
                    true, false, true, true, true, true, false, true, true, true, true, false,
                ]),
                true,
            ),
            Nested::Primitive(
                Some(vec![
                    true, true, true, false, true, true, true, true, true, true, true, true, true,
                    true, false, true, false, false,
                ]),
                true,
                18,
            ),
        ],
        vec![
            list(vec![0, 2, 3], None, false),
            Nested::FixedSizeList {
                validity: Some(vec![true, true, false]),
                is_optional: true,
                width: 2,
                len: 3,
            },
            Nested::Primitive(Some(vec![true, true, true, false, true, true]), true, 6),
        ],
        vec![
            list(vec![0, 1, 1], None, true),
            Nested::Struct(None, true, 12),
            list(vec![0, 0], None, true),
            Nested::Primitive(None, true, 0),
        ],
    ]
}

#[test]
fn streaming_matches_recursive() {
    for nested in sample_paths() {
        assert_eq!(to_levels_streaming(&nested), to_levels(&nested));
    }
}

#[test]
fn level_iter_yields_pairs_then_stops() {
    let nested = vec![
        list(vec![0, 2, 2, 3], Some(vec![true, true, false]), true),
        Nested::Primitive(Some(vec![true, false, true]), true, 3),
    ];
    let mut it = LevelIter::new(&nested).unwrap();
    assert_eq!(it.next(), Some((3, 0)));
    assert_eq!(it.next(), Some((2, 1)));
    assert_eq!(it.next(), Some((1, 0)));
    assert_eq!(it.next(), Some((0, 0)));
    assert_eq!(it.next(), None);
    assert_eq!(it.next(), None);
}

#[test]
fn streaming_refuses_malformed_path() {
    let nested = vec![list(vec![3, 1], None, true), Nested::Primitive(None, true, 2)];
    assert_eq!(to_levels_streaming(&nested), Err(LevelsError::MalformedNested));
    assert!(LevelIter::new(&nested).is_err());
}
