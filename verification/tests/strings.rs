#[test]
fn test_increase_string() {
    let str = &String::from("test");
    let mut i = 0;
    while i < 10 {
        let iter = &format!("{str}-{i}");
        println!("{iter}");
        i += 1;
    }
}
