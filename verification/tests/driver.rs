//! The driver smoke test.

#[test]
fn test_driver() {
    println!("driver test")
}
