use vecbool::bench::bench_random_access;
use vecbool::bench::bench_values;

#[test]
fn random_access() {
    let len: usize = 5;
    let rand_indexes_1 = bench_random_access(len);
    let rand_indexes_2 = bench_random_access(len);

    assert_eq!(rand_indexes_1, rand_indexes_2);
    assert_eq!(rand_indexes_1.len(), len);

    for index in rand_indexes_1.iter() {
        assert!(*index < len);
    }
}

#[test]
fn values_pattern() {
    assert_eq!(bench_values(0), vec![]);
    assert_eq!(
        bench_values(7),
        vec![true, false, false, true, false, false, true]
    );
}
