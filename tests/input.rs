use mkp::input::{parse_instance, read_rows};
use mkp::knapsack::{Knapsack, MalformedInstance};

#[test]
fn read_rows_of_instance() {
    let (rows, bad) = read_rows(b"3 1 0 0\n6 5 4\n1 1 1\n10\n");
    assert_eq!(bad, None);
    assert_eq!(rows, vec![vec![3, 1, 0, 0], vec![6, 5, 4], vec![1, 1, 1], vec![10]]);
    let k = Knapsack::from(&rows).unwrap();
    let s = k.run_greedy();
    assert_eq!(s.total_profit, 15);
    assert_eq!(s.utilization, vec![3000]);
}

#[test]
fn read_rows_without_final_newline() {
    let rows = read_rows(b"1 2\n3").0;
    assert_eq!(rows, vec![vec![1, 2], vec![3]]);
}

#[test]
fn read_rows_blank_separators() {
    let rows = read_rows(b"  1\t2 \r\n\n 30  \r\n").0;
    assert_eq!(rows, vec![vec![1, 2], vec![], vec![30]]);
}

#[test]
fn read_rows_empty_text() {
    let rows = read_rows(b"").0;
    assert!(rows.is_empty());
}

#[test]
fn read_rows_largest_number() {
    let rows = read_rows(b"4294967295").0;
    assert_eq!(rows, vec![vec![4294967295]]);
    assert_eq!(read_rows(b"1\n4294967296\n"), (vec![vec![1]], Some(2)));
}

#[test]
fn read_rows_rejects_other_bytes() {
    assert_eq!(read_rows(b"1 2\n3 x 4\n"), (vec![vec![1, 2]], Some(2)));
    assert_eq!(read_rows(b"-1"), (vec![], Some(1)));
    assert_eq!(read_rows(b"1 2\n3\n4.5\n"), (vec![vec![1, 2], vec![3]], Some(3)));
}

#[test]
fn parse_instance_builds() {
    let k = parse_instance(b"3 2 0 0\n4 5 3\n2 3 1\n3 1 2\n4 4").unwrap();
    let s = k.run_greedy();
    assert_eq!(s.picked_items, vec![2, 3]);
    assert_eq!(s.total_profit, 8);
}

#[test]
fn parse_instance_reports_earlier_short_line() {
    let e = parse_instance(b"3 1 0 0\n6 5\n1 1 x\n10\n").err();
    assert_eq!(e, Some(MalformedInstance { line: 2 }));
}

#[test]
fn parse_instance_reports_bad_byte() {
    let e = parse_instance(b"3 1 0 0\n6 5 4\n1 1 x\n10\n").err();
    assert_eq!(e, Some(MalformedInstance { line: 3 }));
    let e = parse_instance(b"3 1 0 0\n6 5 4\n1 1 1\n").err();
    assert_eq!(e, Some(MalformedInstance { line: 4 }));
}
