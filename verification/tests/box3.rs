#[test]
fn dilate() {
}
