use delorean_table::sorter;
use delorean_table::order::Order;
use delorean_table::sorter::{compare, partition, quicksort_by, sort, swap, validate, Error};
use delorean_table::{Packer, Packers};

fn text(s: &str) -> Vec<u8> {
    s.as_bytes().to_vec()
}

fn integers(values: &[Option<i64>]) -> Packers {
    let mut packer: Packer<i64> = Packer::new();
    for value in values {
        packer.push_option(*value);
    }
    Packers::Integer(packer)
}

fn whole(values: &[i64]) -> Packers {
    Packers::Integer(Packer::from(values.to_vec()))
}

fn strings(values: &[Option<&str>]) -> Packers {
    let mut packer: Packer<Vec<u8>> = Packer::new();
    for value in values {
        packer.push_option(value.map(text));
    }
    Packers::String(packer)
}

fn floats(values: &[Option<f64>]) -> Packers {
    let mut packer: Packer<u64> = Packer::new();
    for value in values {
        packer.push_option(value.map(f64::to_bits));
    }
    Packers::Float(packer)
}

fn booleans(values: &[Option<bool>]) -> Packers {
    let mut packer: Packer<bool> = Packer::new();
    for value in values {
        packer.push_option(*value);
    }
    Packers::Boolean(packer)
}

fn integer_values(column: &Packers) -> Vec<Option<i64>> {
    match column {
        Packers::Integer(p) => p.values().to_vec(),
        _ => panic!("not an integer column"),
    }
}

fn string_values(column: &Packers) -> Vec<Option<String>> {
    match column {
        Packers::String(p) => p
            .values()
            .iter()
            .map(|v| v.as_ref().map(|b| String::from_utf8(b.clone()).unwrap()))
            .collect(),
        _ => panic!("not a string column"),
    }
}

fn float_values(column: &Packers) -> Vec<Option<f64>> {
    match column {
        Packers::Float(p) => p.values().iter().map(|v| v.map(f64::from_bits)).collect(),
        _ => panic!("not a float column"),
    }
}

fn boolean_values(column: &Packers) -> Vec<Option<bool>> {
    match column {
        Packers::Boolean(p) => p.values().to_vec(),
        _ => panic!("not a boolean column"),
    }
}

fn owned(values: &[Option<&str>]) -> Vec<Option<String>> {
    values.iter().map(|v| v.map(String::from)).collect()
}

#[test]
fn packers_sort() {
    // Input Table
    //
    // 100    "a"    "cow"    1.23    100
    // NULL   "d"    "zebra"  NULL    105
    // 200    "a"    "cow"    3.22    99
    // NULL   "c"    "bee"    45.33   NULL
    let mut packer_a: Packer<i64> = Packer::new();
    packer_a.push(100);
    packer_a.push_option(None);
    packer_a.push(200);
    packer_a.push_option(None);

    let mut packer_b: Packer<Vec<u8>> = Packer::new();
    packer_b.push(text("a"));
    packer_b.push(text("d"));
    packer_b.push(text("a"));
    packer_b.push(text("c"));

    let mut packer_c: Packer<Vec<u8>> = Packer::new();
    packer_c.push(text("cow"));
    packer_c.push(text("zebra"));
    packer_c.push(text("cow"));
    packer_c.push(text("bee"));

    let mut packer_d: Packer<u64> = Packer::new();
    packer_d.push(1.23_f64.to_bits());
    packer_d.push_option(None);
    packer_d.push(3.22_f64.to_bits());
    packer_d.push(45.33_f64.to_bits());

    let mut packer_e: Packer<i64> = Packer::new();
    packer_e.push(100);
    packer_e.push(105);
    packer_e.push(99);
    packer_e.push_option(None);

    let mut packers = vec![
        Packers::Integer(packer_a),
        Packers::String(packer_b),
        Packers::String(packer_c),
        Packers::Float(packer_d),
        Packers::Integer(packer_e),
    ];

    // SORT ON COLUMN 1, 2, 4 ASC.
    sort(&mut packers, &[1, 2, 4]).unwrap();

    // Output Table
    //
    // 200    "a"    "cow"    3.22    99
    // 100    "a"    "cow"    1.23    100
    // NULL   "c"    "bee"    45.33   NULL
    // NULL   "d"    "zebra"  NULL    105

    if let Packers::Integer(p) = &packers[0] {
        assert_eq!(p.values(), vec![Some(200), Some(100), None, None,]);
    } else {
        panic!("column 0 changed its kind");
    };

    if let Packers::String(p) = &packers[1] {
        assert_eq!(
            p.values(),
            vec![
                Some(text("a")),
                Some(text("a")),
                Some(text("c")),
                Some(text("d"))
            ]
        );
    } else {
        panic!("column 1 changed its kind");
    };

    if let Packers::String(p) = &packers[2] {
        assert_eq!(
            p.values(),
            vec![
                Some(text("cow")),
                Some(text("cow")),
                Some(text("bee")),
                Some(text("zebra"))
            ]
        );
    } else {
        panic!("column 2 changed its kind");
    };

    if let Packers::Float(p) = &packers[3] {
        let floats: Vec<Option<f64>> = p
            .values()
            .iter()
            .map(|bits| bits.map(f64::from_bits))
            .collect();
        assert_eq!(floats, vec![Some(3.22), Some(1.23), Some(45.33), None]);
    } else {
        panic!("column 3 changed its kind");
    };

    if let Packers::Integer(p) = &packers[4] {
        assert_eq!(p.values(), vec![Some(99), Some(100), None, Some(105),]);
    } else {
        panic!("column 4 changed its kind");
    };
}

#[test]
fn packers_sort_equal() {
    let packer: Packer<i64> = Packer::from(vec![1; 10000]);
    let mut packers = vec![Packers::Integer(packer)];

    assert_eq!(sort(&mut packers, &[0, 1]), Err(Error::TooManyColumns));

    assert_eq!(
        sorter::sort(&mut packers, &[2]),
        Err(Error::OutOfBoundsColumnIndex)
    );

    sort(&mut packers, &[0]).unwrap();
}

#[test]
fn sort_by_one_string_column_moves_whole_rows() {
    let mut packers = vec![
        integers(&[Some(100), None, Some(200), None]),
        strings(&[Some("a"), Some("d"), Some("a"), Some("c")]),
        floats(&[Some(1.23), None, Some(3.22), Some(45.33)]),
    ];

    assert_eq!(sort(&mut packers, &[1]), Ok(()));

    assert_eq!(
        string_values(&packers[1]),
        owned(&[Some("a"), Some("a"), Some("c"), Some("d")])
    );
    let a = integer_values(&packers[0]);
    let c = float_values(&packers[2]);
    assert!(
        (a == vec![Some(100), Some(200), None, None]
            && c == vec![Some(1.23), Some(3.22), Some(45.33), None])
            || (a == vec![Some(200), Some(100), None, None]
                && c == vec![Some(3.22), Some(1.23), Some(45.33), None])
    );
}

#[test]
fn more_sort_columns_than_columns_is_refused() {
    let mut packers = vec![whole(&[3, 1, 2])];
    assert_eq!(sort(&mut packers, &[0, 1]), Err(Error::TooManyColumns));
    assert_eq!(integer_values(&packers[0]), vec![Some(3), Some(1), Some(2)]);
}

#[test]
fn sort_column_past_the_last_column_is_refused() {
    let mut packers = vec![whole(&[3, 1, 2]), whole(&[6, 5, 4])];
    assert_eq!(sort(&mut packers, &[5]), Err(Error::OutOfBoundsColumnIndex));
    assert_eq!(integer_values(&packers[0]), vec![Some(3), Some(1), Some(2)]);
    assert_eq!(integer_values(&packers[1]), vec![Some(6), Some(5), Some(4)]);
}

#[test]
fn sort_column_equal_to_the_column_count_is_refused() {
    let mut packers = vec![whole(&[3, 1, 2]), whole(&[6, 5, 4])];
    assert_eq!(sort(&mut packers, &[2]), Err(Error::OutOfBoundsColumnIndex));
    assert_eq!(sort(&mut packers, &[1, 2]), Err(Error::OutOfBoundsColumnIndex));
}

#[test]
fn repeated_sort_column_is_refused() {
    let mut packers = vec![whole(&[3, 1, 2]), whole(&[6, 5, 4])];
    assert_eq!(sort(&mut packers, &[1, 1]), Err(Error::RepeatedColumns));
    assert_eq!(integer_values(&packers[0]), vec![Some(3), Some(1), Some(2)]);
    assert_eq!(integer_values(&packers[1]), vec![Some(6), Some(5), Some(4)]);
}

#[test]
fn faults_are_reported_in_a_fixed_order() {
    let mut packers = vec![whole(&[3, 1, 2]), whole(&[6, 5, 4])];
    // too many keys, one of them repeated and out of bounds
    assert_eq!(sort(&mut packers, &[7, 7, 0]), Err(Error::TooManyColumns));
    // a repeated key that is out of bounds as well
    assert_eq!(sort(&mut packers, &[7, 7]), Err(Error::RepeatedColumns));
    assert_eq!(sort(&mut packers, &[7, 0]), Err(Error::OutOfBoundsColumnIndex));
}

#[test]
fn as_many_sort_columns_as_columns_is_accepted() {
    let mut packers = vec![
        whole(&[2, 1, 2, 1]),
        strings(&[Some("b"), Some("b"), Some("a"), Some("a")]),
        whole(&[0, 1, 2, 3]),
    ];
    assert_eq!(sort(&mut packers, &[0, 1, 2]), Ok(()));
    assert_eq!(
        integer_values(&packers[0]),
        vec![Some(1), Some(1), Some(2), Some(2)]
    );
    assert_eq!(
        string_values(&packers[1]),
        owned(&[Some("a"), Some("b"), Some("a"), Some("b")])
    );
    assert_eq!(
        integer_values(&packers[2]),
        vec![Some(3), Some(1), Some(2), Some(0)]
    );
}

#[test]
fn no_columns_is_a_success_whatever_the_keys() {
    let mut packers: Vec<Packers> = vec![];
    assert_eq!(sort(&mut packers, &[0]), Ok(()));
    assert_eq!(sort(&mut packers, &[3, 3, 9]), Ok(()));
    assert_eq!(sort(&mut packers, &[]), Ok(()));
    assert!(packers.is_empty());
}

#[test]
fn no_sort_columns_leaves_the_rows_where_they_are() {
    let mut packers = vec![
        whole(&[3, 1, 2]),
        strings(&[Some("z"), None, Some("a")]),
    ];
    assert_eq!(sort(&mut packers, &[]), Ok(()));
    assert_eq!(integer_values(&packers[0]), vec![Some(3), Some(1), Some(2)]);
    assert_eq!(
        string_values(&packers[1]),
        owned(&[Some("z"), None, Some("a")])
    );
}

#[test]
fn columns_without_rows_sort_to_themselves() {
    let mut packers = vec![integers(&[]), strings(&[])];
    assert_eq!(sort(&mut packers, &[1, 0]), Ok(()));
    assert_eq!(integer_values(&packers[0]), vec![]);
    assert_eq!(string_values(&packers[1]), owned(&[]));
}

#[test]
fn a_single_row_sorts_to_itself() {
    let mut packers = vec![integers(&[None]), strings(&[Some("only")])];
    assert_eq!(sort(&mut packers, &[0, 1]), Ok(()));
    assert_eq!(integer_values(&packers[0]), vec![None]);
    assert_eq!(string_values(&packers[1]), owned(&[Some("only")]));
}

#[test]
fn integer_nulls_sort_last() {
    let mut packers = vec![integers(&[None, Some(3), None, Some(0), Some(5)])];
    assert_eq!(sort(&mut packers, &[0]), Ok(()));
    assert_eq!(
        integer_values(&packers[0]),
        vec![Some(0), Some(3), Some(5), None, None]
    );
}

#[test]
fn negative_integers_sort_before_positive_ones() {
    let mut packers = vec![integers(&[Some(1), Some(i64::MIN), Some(-1), Some(i64::MAX)])];
    assert_eq!(sort(&mut packers, &[0]), Ok(()));
    assert_eq!(
        integer_values(&packers[0]),
        vec![Some(i64::MIN), Some(-1), Some(1), Some(i64::MAX)]
    );
}

#[test]
fn strings_sort_bytewise_with_nulls_last() {
    let mut packers = vec![strings(&[
        Some("b"),
        Some("ab"),
        Some(""),
        Some("abc"),
        Some("a"),
        None,
        Some("B"),
    ])];
    assert_eq!(sort(&mut packers, &[0]), Ok(()));
    assert_eq!(
        string_values(&packers[0]),
        owned(&[
            Some(""),
            Some("B"),
            Some("a"),
            Some("ab"),
            Some("abc"),
            Some("b"),
            None
        ])
    );
}

#[test]
fn earlier_sort_columns_take_precedence() {
    let build = || {
        vec![
            integers(&[Some(2), Some(1), Some(2), Some(1), None, Some(0)]),
            strings(&[Some("b"), Some("b"), Some("a"), Some("a"), Some("a"), None]),
        ]
    };

    let mut packers = build();
    assert_eq!(sort(&mut packers, &[1, 0]), Ok(()));
    assert_eq!(
        string_values(&packers[1]),
        owned(&[Some("a"), Some("a"), Some("a"), Some("b"), Some("b"), None])
    );
    assert_eq!(
        integer_values(&packers[0]),
        vec![Some(1), Some(2), None, Some(1), Some(2), Some(0)]
    );

    let mut packers = build();
    assert_eq!(sort(&mut packers, &[0, 1]), Ok(()));
    assert_eq!(
        integer_values(&packers[0]),
        vec![Some(0), Some(1), Some(1), Some(2), Some(2), None]
    );
    assert_eq!(
        string_values(&packers[1]),
        owned(&[None, Some("a"), Some("b"), Some("a"), Some("b"), Some("a")])
    );
}

#[test]
fn float_and_boolean_sort_columns_order_nothing() {
    let mut packers = vec![
        floats(&[Some(1.5), Some(0.5), Some(2.5)]),
        booleans(&[Some(true), None, Some(false)]),
        whole(&[0, 1, 2]),
    ];
    assert_eq!(sort(&mut packers, &[0, 1]), Ok(()));
    // every row ties with every other: the exchanges of ties show
    assert_eq!(
        float_values(&packers[0]),
        vec![Some(0.5), Some(2.5), Some(1.5)]
    );
    assert_eq!(
        boolean_values(&packers[1]),
        vec![None, Some(false), Some(true)]
    );
    assert_eq!(integer_values(&packers[2]), vec![Some(1), Some(2), Some(0)]);
}

#[test]
fn a_column_after_an_unordered_one_still_decides() {
    let mut packers = vec![
        floats(&[Some(9.0), Some(8.0), Some(7.0)]),
        whole(&[3, 1, 2]),
    ];
    assert_eq!(sort(&mut packers, &[0, 1]), Ok(()));
    assert_eq!(integer_values(&packers[1]), vec![Some(1), Some(2), Some(3)]);
    assert_eq!(
        float_values(&packers[0]),
        vec![Some(8.0), Some(7.0), Some(9.0)]
    );
}

#[test]
fn rows_are_kept_with_their_multiplicity() {
    let keys = [5, 3, 5, 1, 3, 3, 9, 1, 0, 5];
    let tags = [0, 1, 2, 3, 4, 5, 6, 7, 8, 9];
    let mut packers = vec![whole(&keys), whole(&tags)];
    assert_eq!(sort(&mut packers, &[0]), Ok(()));

    let keys_after = integer_values(&packers[0]);
    let tags_after = integer_values(&packers[1]);
    let mut seen: Vec<i64> = tags_after.iter().map(|t| t.unwrap()).collect();
    seen.sort();
    assert_eq!(seen, tags.to_vec());
    for (key, tag) in keys_after.iter().zip(tags_after.iter()) {
        assert_eq!(key.unwrap(), keys[tag.unwrap() as usize]);
    }
}

#[test]
fn ties_are_exchanged_in_a_small_table() {
    let mut packers = vec![whole(&[1, 1, 1, 1]), whole(&[0, 1, 2, 3])];
    assert_eq!(sort(&mut packers, &[0]), Ok(()));
    assert_eq!(
        integer_values(&packers[1]),
        vec![Some(2), Some(3), Some(0), Some(1)]
    );
}

#[test]
fn a_large_table_of_ties_is_left_alone() {
    let tags: Vec<i64> = (0..1001).collect();
    let mut packers = vec![whole(&vec![1; 1001]), whole(&tags)];
    assert_eq!(sort(&mut packers, &[0]), Ok(()));
    let expected: Vec<Option<i64>> = tags.iter().map(|t| Some(*t)).collect();
    assert_eq!(integer_values(&packers[1]), expected);
}

#[test]
fn a_table_of_a_thousand_ties_is_not_scanned() {
    let tags: Vec<i64> = (0..1000).collect();
    let mut packers = vec![whole(&vec![1; 1000]), whole(&tags)];
    assert_eq!(sort(&mut packers, &[0]), Ok(()));
    let after = integer_values(&packers[1]);
    assert_eq!(after[0], Some(666));
    assert_eq!(after[1], Some(667));
    assert_eq!(after[499], Some(833));
    assert_eq!(after[500], Some(166));
    assert_eq!(after[998], Some(335));
    assert_eq!(after[999], Some(333));
}

#[test]
fn a_large_table_with_a_differing_row_is_sorted() {
    let keys: Vec<i64> = (0..1500).map(|k| 1500 - k).collect();
    let mut packers = vec![whole(&keys)];
    assert_eq!(sort(&mut packers, &[0]), Ok(()));
    let expected: Vec<Option<i64>> = (1..=1500).map(Some).collect();
    assert_eq!(integer_values(&packers[0]), expected);
}

#[test]
fn a_table_in_order_stays_in_order() {
    let keys: Vec<i64> = (0..1500).map(|k| k / 3).collect();
    let mut packers = vec![whole(&keys)];
    assert_eq!(sort(&mut packers, &[0]), Ok(()));
    let expected: Vec<Option<i64>> = keys.iter().map(|k| Some(*k)).collect();
    assert_eq!(integer_values(&packers[0]), expected);

    let mut packers = vec![integers(&[Some(1), Some(1), Some(2), None, None])];
    assert_eq!(sort(&mut packers, &[0]), Ok(()));
    assert_eq!(
        integer_values(&packers[0]),
        vec![Some(1), Some(1), Some(2), None, None]
    );
}

#[test]
fn sorting_twice_changes_nothing_more() {
    let mut packers = vec![
        strings(&[Some("pear"), None, Some("apple"), Some("fig"), Some("apple")]),
        whole(&[4, 3, 2, 1, 0]),
    ];
    assert_eq!(sort(&mut packers, &[0, 1]), Ok(()));
    let first = (string_values(&packers[0]), integer_values(&packers[1]));
    assert_eq!(
        first.0,
        owned(&[Some("apple"), Some("apple"), Some("fig"), Some("pear"), None])
    );
    assert_eq!(first.1, vec![Some(0), Some(2), Some(1), Some(4), Some(3)]);
    assert_eq!(sort(&mut packers, &[0, 1]), Ok(()));
    assert_eq!(
        (string_values(&packers[0]), integer_values(&packers[1])),
        first
    );
}

#[test]
fn rows_come_out_in_order_when_the_pivot_row_is_exchanged() {
    // The first step exchanges the row at the midpoint, 3, with 0, and goes
    // on comparing with 3.
    let mut packers = vec![whole(&[2, 3, 1, 0])];
    assert_eq!(sort(&mut packers, &[0]), Ok(()));
    assert_eq!(
        integer_values(&packers[0]),
        vec![Some(0), Some(1), Some(2), Some(3)]
    );

    let mut packers = vec![whole(&[5, 10, 3, 1])];
    assert_eq!(sort(&mut packers, &[0]), Ok(()));
    assert_eq!(
        integer_values(&packers[0]),
        vec![Some(1), Some(3), Some(5), Some(10)]
    );

    let mut packers = vec![whole(&[9, 3, 7, 1, 8, 2, 5])];
    assert_eq!(sort(&mut packers, &[0]), Ok(()));
    assert_eq!(
        integer_values(&packers[0]),
        vec![Some(1), Some(2), Some(3), Some(5), Some(7), Some(8), Some(9)]
    );
}

#[test]
fn leading_nulls_end_up_last() {
    let mut packers = vec![integers(&[None, None, Some(1), Some(2), Some(3)])];
    assert_eq!(sort(&mut packers, &[0]), Ok(()));
    assert_eq!(
        integer_values(&packers[0]),
        vec![Some(1), Some(2), Some(3), None, None]
    );
}

#[test]
fn every_short_column_of_small_integers_comes_out_in_order() {
    for rows in 1..=6_u32 {
        for code in 0..4_u32.pow(rows) {
            let keys: Vec<i64> = (0..rows).map(|r| ((code >> (2 * r)) & 3) as i64).collect();
            let mut expected = keys.clone();
            expected.sort();
            let mut packers = vec![whole(&keys)];
            assert_eq!(sort(&mut packers, &[0]), Ok(()));
            let expected: Vec<Option<i64>> = expected.into_iter().map(Some).collect();
            assert_eq!(integer_values(&packers[0]), expected);
        }
    }
}

#[test]
fn columns_of_unequal_length_matter_only_to_a_sort_that_reads_rows() {
    let mut packers = vec![whole(&[3, 1, 2]), whole(&[6, 5])];
    let before = packers.clone();
    assert_eq!(sort(&mut packers, &[]), Ok(()));
    assert_eq!(sort(&mut packers, &[0, 1, 0]), Err(Error::TooManyColumns));
    assert_eq!(sort(&mut packers, &[1, 1]), Err(Error::RepeatedColumns));
    assert_eq!(sort(&mut packers, &[2]), Err(Error::OutOfBoundsColumnIndex));
    quicksort_by(&mut packers, 1..1, &[9]);
    quicksort_by(&mut packers, 3..0, &[0]);
    assert_eq!(packers, before);
}

#[test]
fn validate_reports_the_first_fault() {
    assert_eq!(validate(0, &[4, 4]), Ok(()));
    assert_eq!(validate(3, &[]), Ok(()));
    assert_eq!(validate(3, &[2, 0, 1]), Ok(()));
    assert_eq!(validate(2, &[0, 1, 0]), Err(Error::TooManyColumns));
    assert_eq!(validate(2, &[7, 7]), Err(Error::RepeatedColumns));
    assert_eq!(validate(2, &[1, 2]), Err(Error::OutOfBoundsColumnIndex));
}

#[test]
fn swap_exchanges_two_rows_in_every_column() {
    let mut packers = vec![
        integers(&[Some(1), None, Some(3)]),
        strings(&[Some("x"), Some("y"), None]),
        floats(&[None, Some(0.25), Some(-0.0)]),
        booleans(&[Some(true), Some(false), None]),
    ];
    swap(&mut packers, 0, 2);
    assert_eq!(integer_values(&packers[0]), vec![Some(3), None, Some(1)]);
    assert_eq!(
        string_values(&packers[1]),
        owned(&[None, Some("y"), Some("x")])
    );
    let bits: Vec<Option<u64>> = float_values(&packers[2])
        .iter()
        .map(|v| v.map(f64::to_bits))
        .collect();
    assert_eq!(
        bits,
        vec![Some((-0.0_f64).to_bits()), Some(0.25_f64.to_bits()), None]
    );
    assert_eq!(
        boolean_values(&packers[3]),
        vec![None, Some(false), Some(true)]
    );

    swap(&mut packers, 1, 1);
    assert_eq!(integer_values(&packers[0]), vec![Some(3), None, Some(1)]);
}

#[test]
fn partition_exchanges_around_the_row_at_the_midpoint() {
    let mut packers = vec![whole(&[3, 1, 2])];
    assert_eq!(partition(&mut packers, &(0..2), &[0]), 0);
    assert_eq!(integer_values(&packers[0]), vec![Some(1), Some(3), Some(2)]);

    let mut packers = vec![whole(&[8, 7, 10, 5, 1])];
    assert_eq!(partition(&mut packers, &(0..4), &[0]), 3);
    assert_eq!(
        integer_values(&packers[0]),
        vec![Some(8), Some(7), Some(1), Some(5), Some(10)]
    );

    let mut packers = vec![whole(&[5, 10, 3, 1])];
    assert_eq!(partition(&mut packers, &(0..3), &[0]), 2);
    assert_eq!(
        integer_values(&packers[0]),
        vec![Some(5), Some(1), Some(3), Some(10)]
    );

    let mut packers = vec![whole(&[4, 4, 4])];
    assert_eq!(partition(&mut packers, &(0..2), &[0]), 1);

    let mut packers = vec![whole(&[7])];
    assert_eq!(partition(&mut packers, &(0..0), &[0]), 0);
}

#[test]
fn partition_keeps_to_its_range() {
    let mut packers = vec![whole(&[9, 2, 1, 0])];
    assert_eq!(partition(&mut packers, &(1..2), &[0]), 1);
    assert_eq!(
        integer_values(&packers[0]),
        vec![Some(9), Some(1), Some(2), Some(0)]
    );
}

#[test]
fn quicksort_by_sorts_the_range_it_is_given() {
    let mut packers = vec![whole(&[5, 4, 3, 2, 1, 0])];
    quicksort_by(&mut packers, 1..4, &[0]);
    assert_eq!(
        integer_values(&packers[0]),
        vec![Some(5), Some(1), Some(2), Some(3), Some(4), Some(0)]
    );
}

#[test]
fn quicksort_by_leaves_a_range_without_a_second_row() {
    let mut packers = vec![whole(&[2, 1, 0])];
    quicksort_by(&mut packers, 1..1, &[0]);
    quicksort_by(&mut packers, 2..0, &[0]);
    quicksort_by(&mut packers, 7..7, &[0]);
    assert_eq!(integer_values(&packers[0]), vec![Some(2), Some(1), Some(0)]);
}

#[test]
fn error_messages() {
    assert_eq!(
        Error::TooManyColumns.message(),
        "Too many sort columns specified"
    );
    assert_eq!(
        Error::RepeatedColumns.message(),
        "Same column specified as sort column multiple times"
    );
    assert_eq!(
        Error::OutOfBoundsColumnIndex.message(),
        "Specified column index is out bounds"
    );
}

#[test]
fn a_refused_sort_changes_nothing() {
    let mut packers = vec![
        integers(&[Some(3), None, Some(1)]),
        strings(&[None, Some("b"), Some("a")]),
        floats(&[Some(0.5), Some(f64::NAN), None]),
        booleans(&[Some(true), None, Some(false)]),
    ];
    let before = packers.clone();

    assert_eq!(
        sort(&mut packers, &[0, 1, 2, 3, 0]),
        Err(Error::TooManyColumns)
    );
    assert_eq!(packers, before);
    assert_eq!(sort(&mut packers, &[1, 0, 1]), Err(Error::RepeatedColumns));
    assert_eq!(packers, before);
    assert_eq!(
        sort(&mut packers, &[1, 4]),
        Err(Error::OutOfBoundsColumnIndex)
    );
    assert_eq!(packers, before);
}

#[test]
fn a_sort_that_has_nothing_to_do_changes_nothing() {
    let mut packers = vec![
        integers(&[Some(3), None, Some(1)]),
        strings(&[None, Some("b"), Some("a")]),
    ];
    let before = packers.clone();
    assert_eq!(sort(&mut packers, &[]), Ok(()));
    assert_eq!(packers, before);
}

#[test]
fn partition_leaves_no_lower_row_after_an_upper_one() {
    for rows in 1..=5_u32 {
        for code in 0..4_u32.pow(rows) {
            let keys: Vec<i64> = (0..rows).map(|r| ((code >> (2 * r)) & 3) as i64).collect();
            let mut packers = vec![whole(&keys)];
            let last = rows as usize - 1;
            let boundary = partition(&mut packers, &(0..last), &[0]);
            assert!(boundary <= last);
            assert!(last == 0 || boundary < last);
            for lower in 0..=boundary {
                for upper in boundary + 1..=last {
                    assert_ne!(compare(&packers, lower, upper, &[0]), Order::Greater);
                }
            }
        }
    }
}
