//! The small helpers front ends share.

use coinjar::util::{flipped, Formatted};

#[test]
fn flipped_swaps_the_sides() {
    let ok: Result<i32, &str> = Ok(5);
    assert_eq!(flipped(ok), Err(5));
    let err: Result<i32, &str> = Err("missing");
    assert_eq!(flipped(err), Ok("missing"));
}

#[test]
fn formatted_carries_value_and_text() {
    let f = Formatted::new(42, "forty-two".to_string());
    assert_eq!(*f.value(), 42);
    assert_eq!(f.text(), "forty-two");
    assert_eq!(f.into_value(), 42);
}
