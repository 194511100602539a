use parquet_levels::levels::calculate_def_levels;
use parquet_levels::nested::{num_values, ListNested, Nested};

fn test(nested: Vec<Nested>, expected: Vec<u32>) {
    let value_count = num_values(&nested);
    if let Ok(result) = calculate_def_levels(&nested, value_count) {
        assert_eq!(result.len(), expected.len());
        assert_eq!(result, expected);
    } else {
        panic!("Failed to calculate def levels.")
    }
}

#[test]
fn def_struct_optional() {
    let b = [
        true, false, true, true, false, true, false, false, true, true,
    ];
    let nested = vec![
        Nested::Struct(None, true, 10),
        Nested::Primitive(Some(b.to_vec()), true, 10),
    ];
    let expected = vec![2, 1, 2, 2, 1, 2, 1, 1, 2, 2];

    test(nested, expected)
}

#[test]
fn nested_edge_simple() {
    let nested = vec![
        Nested::List(ListNested {
            is_optional: true,
            offsets: vec![0, 2],
            validity: None,
        }),
        Nested::Primitive(None, true, 2),
    ];
    let expected = vec![3, 3];

    test(nested, expected)
}

#[test]
fn struct_optional_1() {
    let b = [
        true, false, true, true, false, true, false, false, true, true,
    ];
    let nested = vec![
        Nested::Struct(None, true, 10),
        Nested::Primitive(Some(b.to_vec()), true, 10),
    ];
    let expected = vec![2, 1, 2, 2, 1, 2, 1, 1, 2, 2];

    test(nested, expected)
}

#[test]
fn struct_optional_optional() {
    let nested = vec![
        Nested::Struct(None, true, 10),
        Nested::Primitive(None, true, 10),
    ];
    let expected = vec![2, 2, 2, 2, 2, 2, 2, 2, 2, 2];

    test(nested, expected)
}

#[test]
fn l1_required_required() {
    let nested = vec![
        // [[0, 1], [], [2, 0, 3], [4, 5, 6], [], [7, 8, 9], [], [10]]
        Nested::List(ListNested {
            is_optional: false,
            offsets: vec![0, 2, 2, 5, 8, 8, 11, 11, 12],
            validity: None,
        }),
        Nested::Primitive(None, false, 12),
    ];
    let expected = vec![1, 1, 0, 1, 1, 1, 1, 1, 1, 0, 1, 1, 1, 0, 1];

    test(nested, expected)
}

#[test]
fn l1_optional_optional() {
    // [[0, 1], None, [2, None, 3], [4, 5, 6], [], [7, 8, 9], None, [10]]

    let v0 = [true, false, true, true, true, true, false, true];
    let v1 = [
        true, true, //[0, 1]
        true, false, true, //[2, None, 3]
        true, true, true, //[4, 5, 6]
        true, true, true, //[7, 8, 9]
        true, //[10]
    ];
    let nested = vec![
        Nested::List(ListNested {
            is_optional: true,
            offsets: vec![0, 2, 2, 5, 8, 8, 11, 11, 12],
            validity: Some(v0.to_vec()),
        }),
        Nested::Primitive(Some(v1.to_vec()), true, 12),
    ];
    let expected = vec![3u32, 3, 0, 3, 2, 3, 3, 3, 3, 1, 3, 3, 3, 0, 3];

    test(nested, expected)
}

#[test]
fn l2_required_required_required() {
    /*
    [
        [
            [1,2,3],
            [4,5,6,7],
        ],
        [
            [8],
            [9, 10]
        ]
    ]
    */
    let nested = vec![
        Nested::List(ListNested {
            is_optional: false,
            offsets: vec![0, 2, 4],
            validity: None,
        }),
        Nested::List(ListNested {
            is_optional: false,
            offsets: vec![0, 3, 7, 8, 10],
            validity: None,
        }),
        Nested::Primitive(None, false, 10),
    ];
    let expected = vec![2, 2, 2, 2, 2, 2, 2, 2, 2, 2];

    test(nested, expected)
}

#[test]
fn l2_optional_required_required() {
    let a = [true, false, true, true];
    /*
    [
        [
            [1,2,3],
            [4,5,6,7],
        ],
        None,
        [
            [8],
            [],
            [9, 10]
        ]
    ]
    */
    let nested = vec![
        Nested::List(ListNested {
            is_optional: true,
            offsets: vec![0, 2, 2, 2, 5],
            validity: Some(a.to_vec()),
        }),
        Nested::List(ListNested {
            is_optional: false,
            offsets: vec![0, 3, 7, 8, 8, 10],
            validity: None,
        }),
        Nested::Primitive(None, false, 10),
    ];
    let expected = vec![3, 3, 3, 3, 3, 3, 3, 0, 1, 3, 2, 3, 3];

    test(nested, expected)
}

#[test]
fn l2_optional_optional_required() {
    let a = [true, false, true];
    let b = [true, true, true, true, false];
    /*
    [
        [
            [1,2,3],
            [4,5,6,7],
        ],
        None,
        [
            [8],
            [],
            None,
        ],
    ]
    */
    let nested = vec![
        Nested::List(ListNested {
            is_optional: true,
            offsets: vec![0, 2, 2, 5],
            validity: Some(a.to_vec()),
        }),
        Nested::List(ListNested {
            is_optional: true,
            offsets: vec![0, 3, 7, 8, 8, 8],
            validity: Some(b.to_vec()),
        }),
        Nested::Primitive(None, false, 8),
    ];
    let expected = vec![4, 4, 4, 4, 4, 4, 4, 0, 4, 3, 2];

    test(nested, expected)
}

#[test]
fn l2_optional_optional_optional() {
    let a = [true, false, true];
    let b = [true, true, true, false];
    let c = [true, true, true, true, false, true, true, true];
    /*
    [
        [
            [1,2,3],
            [4,None,6,7],
        ],
        None,
        [
            [8],
            None,
        ],
    ]
    */
    let nested = vec![
        Nested::List(ListNested {
            is_optional: true,
            offsets: vec![0, 2, 2, 4],
            validity: Some(a.to_vec()),
        }),
        Nested::List(ListNested {
            is_optional: true,
            offsets: vec![0, 3, 7, 8, 8],
            validity: Some(b.to_vec()),
        }),
        Nested::Primitive(Some(c.to_vec()), true, 8),
    ];
    let expected = vec![5, 5, 5, 5, 4, 5, 5, 0, 5, 2];

    test(nested, expected)
}

/*
    [{"a": "a"}, {"a": "b"}],
    None,
    [{"a": "b"}, None, {"a": "b"}],
    [{"a": None}, {"a": None}, {"a": None}],
    [],
    [{"a": "d"}, {"a": "d"}, {"a": "d"}],
    None,
    [{"a": "e"}],
*/
#[test]
fn nested_list_struct_nullable() {
    let a = [
        true, true, true, false, true, false, false, false, true, true, true, true,
    ];
    let b = [
        true, true, true, false, true, true, true, true, true, true, true, true,
    ];
    let c = [true, false, true, true, true, true, false, true];
    let nested = vec![
        Nested::List(ListNested {
            is_optional: true,
            offsets: vec![0, 2, 2, 5, 8, 8, 11, 11, 12],
            validity: Some(c.to_vec()),
        }),
        Nested::Struct(Some(b.to_vec()), true, 12),
        Nested::Primitive(Some(a.to_vec()), true, 12),
    ];
    let expected = vec![4, 4, 0, 4, 2, 4, 3, 3, 3, 1, 4, 4, 4, 0, 4];

    test(nested, expected)
}

#[test]
fn nested_list_struct_nullable1() {
    let c = [true, false];
    let nested = vec![
        Nested::List(ListNested {
            is_optional: true,
            offsets: vec![0, 1, 1],
            validity: Some(c.to_vec()),
        }),
        Nested::Struct(None, true, 1),
        Nested::Primitive(None, true, 1),
    ];
    let expected = vec![4, 0];

    test(nested, expected)
}

#[test]
fn nested_struct_list_nullable() {
    let a = [
        true, false, true, true, true, true, false, true, true, true, true, false,
    ];
    let b = [
        true, true, true, false, true, true, true, true, true, true, true, true, true, true,
        false, true, false, false,
    ];
    let nested = vec![
        Nested::Struct(None, true, 12),
        Nested::List(ListNested {
            is_optional: true,
            offsets: vec![0, 2, 2, 5, 8, 8, 11, 11, 12, 13, 15, 18, 18]
                ,
            validity: Some(a.to_vec()),
        }),
        Nested::Primitive(Some(b.to_vec()), true, 18),
    ];
    let expected = vec![
        4, 4, 1, 4, 3, 4, 4, 4, 4, 2, 4, 4, 4, 1, 4, 4, 4, 3, 4, 3, 3, 1,
    ];

    test(nested, expected)
}

#[test]
fn nested_struct_list_nullable1() {
    let a = [true, true, false];
    let nested = vec![
        Nested::Struct(None, true, 3),
        Nested::List(ListNested {
            is_optional: true,
            offsets: vec![0, 1, 1, 1],
            validity: Some(a.to_vec()),
        }),
        Nested::Primitive(None, true, 1),
    ];
    let expected = vec![4, 2, 1];

    test(nested, expected)
}

#[test]
fn nested_list_struct_list_nullable1() {
    /*
    [
        [{"a": ["b"]}, None],
    ]
    */

    let a = [true];
    let b = [true, false];
    let c = [true, false];
    let d = [true];
    let nested = vec![
        Nested::List(ListNested {
            is_optional: true,
            offsets: vec![0, 2],
            validity: Some(a.to_vec()),
        }),
        Nested::Struct(Some(b.to_vec()), true, 2),
        Nested::List(ListNested {
            is_optional: true,
            offsets: vec![0, 1, 1],
            validity: Some(c.to_vec()),
        }),
        Nested::Primitive(Some(d.to_vec()), true, 1),
    ];
    /*
            0 6
            1 6
            0 0
            0 6
            1 2
    */
    let expected = vec![6, 2];

    test(nested, expected)
}

#[test]
fn nested_list_struct_list_nullable() {
    /*
        [
        [{"a": ["a"]}, {"a": ["b"]}],
        None,
        [{"a": ["b"]}, None, {"a": ["b"]}],
        [{"a": None}, {"a": None}, {"a": None}],
        [],
        [{"a": ["d"]}, {"a": [None]}, {"a": ["c", "d"]}],
        None,
        [{"a": []}],
    ]
        */
    let a = [true, false, true, true, true, true, false, true];
    let b = [
        true, true, true, false, true, true, true, true, true, true, true, true,
    ];
    let c = [
        true, true, true, false, true, false, false, false, true, true, true, true,
    ];
    let d = [true, true, true, true, true, false, true, true];
    let nested = vec![
        Nested::List(ListNested {
            is_optional: true,
            offsets: vec![0, 2, 2, 5, 8, 8, 11, 11, 12],
            validity: Some(a.to_vec()),
        }),
        Nested::Struct(Some(b.to_vec()), true, 12),
        Nested::List(ListNested {
            is_optional: true,
            offsets: vec![0, 1, 2, 3, 3, 4, 4, 4, 4, 5, 6, 8, 8]
                ,
            validity: Some(c.to_vec()),
        }),
        Nested::Primitive(Some(d.to_vec()), true, 8),
    ];
    let expected = vec![6, 6, 0, 6, 2, 6, 3, 3, 3, 1, 6, 5, 6, 6, 0, 4];

    test(nested, expected)
}
