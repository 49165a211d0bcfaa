use treblo::optional::{OptionalS2, S1, S1Opt, S2};

#[test]
fn test_simple() {
    let _s1 = S1 { x: 42, y: Some(42) };
    let _s1_opt = S1Opt { x: Some(42), y: Some(Some(42)) };
}

#[test]
fn test_complex() {
    let _s2 = S2 { x: 42, y: Some(42), z: true, w: "hello".to_string() };
    let s2_opt = OptionalS2 { x: true, z: Some(42), w: Some("hello".to_string()) };
    let _ = format!("{:?}", s2_opt);
    assert_eq!(OptionalS2 { x: true, z: Some(42), w: Some("hello".to_string()) }, s2_opt);
}

#[test]
fn test_complex_default() {
    assert_eq!(S2 { x: 0, y: None, z: false, w: "".to_string() }, Default::default());
    assert_eq!(OptionalS2 { x: false, z: None, w: None }, Default::default());
}

#[test]
fn test_complex_from() {
    let s2 = S2 { x: 42, y: Some(42), z: true, w: "hello".to_string() };
    assert_eq!(
        OptionalS2 { x: true, z: Some(42), w: Some("hello".to_string()) },
        OptionalS2::from(s2)
    );
}
