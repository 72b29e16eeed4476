use succinct_ds::instances::{parse_pd_instance, parse_rmq_instance, InstanceError};
use succinct_ds::report::format_results;

#[test]
fn reads_pd_instance() {
    let text = b"4\n1\n3\n4\n7\n0\n1\n\n  2\r\n";
    let instance = parse_pd_instance(text).ok().unwrap();
    assert_eq!(instance.numbers, vec![1, 3, 4, 7]);
    assert_eq!(instance.queries, vec![0, 1, 2]);
}

#[test]
fn rejects_malformed_pd_instance() {
    assert!(matches!(parse_pd_instance(b"2\n1\n"), Err(InstanceError::Malformed)));
    assert!(matches!(parse_pd_instance(b"x\n"), Err(InstanceError::Malformed)));
    assert!(matches!(parse_pd_instance(b""), Err(InstanceError::Malformed)));
    assert!(matches!(
        parse_pd_instance(b"1\n18446744073709551616\n"),
        Err(InstanceError::Malformed)
    ));
    let max = parse_pd_instance(b"1\n18446744073709551615").ok().unwrap();
    assert_eq!(max.numbers, vec![u64::MAX]);
    assert!(max.queries.is_empty());
}

#[test]
fn reads_rmq_instance() {
    let text = b"3\n5\n1\n2\n0,2\n 1 , 1 \n\n";
    let instance = parse_rmq_instance(text).ok().unwrap();
    assert_eq!(instance.numbers, vec![5, 1, 2]);
    assert_eq!(instance.queries, vec![(0, 2), (1, 1)]);
}

#[test]
fn rejects_malformed_rmq_instance() {
    assert!(matches!(parse_rmq_instance(b"1\n5\n0;0\n"), Err(InstanceError::Malformed)));
    assert!(matches!(parse_rmq_instance(b"1\n5\n0,\n"), Err(InstanceError::Malformed)));
    assert!(matches!(parse_rmq_instance(b"1\n5,5\n"), Err(InstanceError::Malformed)));
}

#[test]
fn formats_results() {
    assert_eq!(format_results(&[1, 20, 300]), b"1, 20, 300".to_vec());
    assert_eq!(format_results(&[]), Vec::<u8>::new());
    assert_eq!(format_results(&[u64::MAX, 0]), b"18446744073709551615, 0".to_vec());
}
