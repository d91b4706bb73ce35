use one_brc::TemperStat;

#[test]
fn test_temper_stat_i16() {
    let mut a = TemperStat::from_i16(19);
    println!("after from_i16 19: {a:?}");
    a.update(998);
    println!("after update_i16 998: {a:?}");
    a.update(-105);
    println!("after update_i16 -105: {a:?}");

    a.merge(&a.clone());
    println!("after merge with self.clone: {a:?}");
}

#[test]
fn test_i16_to_i64_billion() {
    let start = std::time::Instant::now();
    const MAX_TEMP: i16 = 999;
    const N: usize = 1_000_000_000;
    let mut sum: i64 = 0;

    for _ in 0..N {
        sum += MAX_TEMP as i64;
    }

    let mean = sum as f64 / (N * 10) as f64;
    println!("{:?},\t{mean}", start.elapsed());
    assert_eq!((mean * 10.0).trunc() as i16, MAX_TEMP);
}

#[test]
fn stat_invariants_concrete() {
    let mut a = TemperStat::from_i16(50);
    a.update(-30);
    a.update(999);
    let b = TemperStat::from_i16(-999);
    a.merge(&b);
    assert!(a.min <= a.max);
    assert!(a.count >= 1);
    assert!((a.min as i64) * (a.count as i64) <= a.sum);
    assert!(a.sum <= (a.max as i64) * (a.count as i64));
    assert_eq!(a.min, -999);
    assert_eq!(a.max, 999);
    assert_eq!(a.sum, 20);
    assert_eq!(a.count, 4);
}
