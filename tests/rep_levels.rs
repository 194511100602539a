use parquet_levels::levels::calculate_rep_levels;
use parquet_levels::nested::{num_values, ListNested, Nested};

fn test(nested: Vec<Nested>, expected: Vec<u32>) {
    let value_count = num_values(&nested);
    if let Ok(result) = calculate_rep_levels(&nested, value_count) {
        assert_eq!(result.len(), expected.len());
        assert_eq!(result, expected);
    } else {
        panic!("Failed to calculate rep levels.")
    }
}

#[test]
fn struct_required() {
    let nested = vec![
        Nested::Struct(None, false, 10),
        Nested::Primitive(None, true, 10),
    ];
    let expected = vec![0, 0, 0, 0, 0, 0, 0, 0, 0, 0];

    test(nested, expected)
}

#[test]
fn rep_struct_optional() {
    let nested = vec![
        Nested::Struct(None, true, 10),
        Nested::Primitive(None, true, 10),
    ];
    let expected = vec![0, 0, 0, 0, 0, 0, 0, 0, 0, 0];

    test(nested, expected)
}

#[test]
fn l1() {
    let nested = vec![
        Nested::List(ListNested {
            is_optional: true,
            offsets: vec![0, 2, 2, 5, 8, 8, 11, 11, 12],
            validity: None,
        }),
        Nested::Primitive(None, false, 12),
    ];
    let expected = vec![0u32, 1, 0, 0, 1, 1, 0, 1, 1, 0, 0, 1, 1, 0, 0];

    test(nested, expected)
}

#[test]
fn l2() {
    let nested = vec![
        Nested::List(ListNested {
            is_optional: true,
            offsets: vec![0, 2, 2, 4],
            validity: None,
        }),
        Nested::List(ListNested {
            is_optional: true,
            offsets: vec![0, 3, 7, 8, 10],
            validity: None,
        }),
        Nested::Primitive(None, false, 10),
    ];
    let expected = vec![0, 2, 2, 1, 2, 2, 2, 0, 0, 1, 2];

    test(nested, expected)
}

#[test]
fn list_of_struct() {
    /*
    [
        [{"a": "b"}],[{"a": "c"}]
    ]
    */
    let nested = vec![
        Nested::List(ListNested {
            is_optional: true,
            offsets: vec![0, 1, 2],
            validity: None,
        }),
        Nested::Struct(None, true, 2),
        Nested::Primitive(None, true, 2),
    ];
    let expected = vec![0, 0];

    test(nested, expected)
}

#[test]
fn list_struct_list() {
    let nested = vec![
        Nested::List(ListNested {
            is_optional: true,
            offsets: vec![0, 2, 3],
            validity: None,
        }),
        Nested::Struct(None, true, 3),
        Nested::List(ListNested {
            is_optional: true,
            offsets: vec![0, 3, 6, 7],
            validity: None,
        }),
        Nested::Primitive(None, true, 7),
    ];
    let expected = vec![0, 2, 2, 1, 2, 2, 0];

    test(nested, expected)
}

#[test]
fn struct_list_optional() {
    /*
    {"f1": ["a", "b", None, "c"]}
    */
    let nested = vec![
        Nested::Struct(None, true, 1),
        Nested::List(ListNested {
            is_optional: true,
            offsets: vec![0, 4],
            validity: None,
        }),
        Nested::Primitive(None, true, 4),
    ];
    let expected = vec![0, 1, 1, 1];

    test(nested, expected)
}

#[test]
fn l2_other() {
    let nested = vec![
        Nested::List(ListNested {
            is_optional: true,
            offsets: vec![0, 1, 1, 3, 5, 5, 8, 8, 9],
            validity: None,
        }),
        Nested::List(ListNested {
            is_optional: true,
            offsets: vec![0, 2, 4, 5, 7, 8, 9, 10, 11, 12],
            validity: None,
        }),
        Nested::Primitive(None, false, 12),
    ];
    let expected = vec![0, 2, 0, 0, 2, 1, 0, 2, 1, 0, 0, 1, 1, 0, 0];

    test(nested, expected)
}

#[test]
fn list_struct_list_1() {
    /*
    [
        [{"a": ["a"]}, {"a": ["b"]}],
        [],
        [{"a": ["b"]}, None, {"a": ["b"]}],
        [{"a": []}, {"a": []}, {"a": []}],
        [],
        [{"a": ["d"]}, {"a": ["a"]}, {"a": ["c", "d"]}],
        [],
        [{"a": []}],
    ]
    // reps: [0, 1, 0, 0, 1, 1, 0, 1, 1, 0, 0, 1, 1, 2, 0, 0]
    */
    let nested = vec![
        Nested::List(ListNested {
            is_optional: true,
            offsets: vec![0, 2, 2, 5, 8, 8, 11, 11, 12],
            validity: None,
        }),
        Nested::Struct(None, true, 12),
        Nested::List(ListNested {
            is_optional: true,
            offsets: vec![0, 1, 2, 3, 3, 4, 4, 4, 4, 5, 6, 8, 8]
                ,
            validity: None,
        }),
        Nested::Primitive(None, true, 8),
    ];
    let expected = vec![0, 1, 0, 0, 1, 1, 0, 1, 1, 0, 0, 1, 1, 2, 0, 0];

    test(nested, expected)
}

#[test]
fn list_struct_list_2() {
    /*
    [
        [{"a": []}],
    ]
    // reps: [0]
    */
    let nested = vec![
        Nested::List(ListNested {
            is_optional: true,
            offsets: vec![0, 1],
            validity: None,
        }),
        Nested::Struct(None, true, 12),
        Nested::List(ListNested {
            is_optional: true,
            offsets: vec![0, 0],
            validity: None,
        }),
        Nested::Primitive(None, true, 0),
    ];
    let expected = vec![0];

    test(nested, expected)
}

#[test]
fn list_struct_list_3() {
    let nested = vec![
        Nested::List(ListNested {
            is_optional: true,
            offsets: vec![0, 1, 1],
            validity: None,
        }),
        Nested::Struct(None, true, 12),
        Nested::List(ListNested {
            is_optional: true,
            offsets: vec![0, 0],
            validity: None,
        }),
        Nested::Primitive(None, true, 0),
    ];
    let expected = vec![0, 0];
    // [1, 0], [0]
    // pick last

    test(nested, expected)
}
