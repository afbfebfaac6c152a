use std::time::Instant;

#[test]
fn it_works() {
    let now = Instant::now();
    let a = 4;
    assert_eq!(4, a);
    println!("{:?}", now.elapsed());
}
