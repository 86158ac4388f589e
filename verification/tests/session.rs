use openrscad::request::{Request, StructuredCacheKey};

#[test]
fn cache_key_is_insensitive_to_input_order() {
    let a = Request {
        source: "cube(1);".to_string(),
        params: vec![("x".into(), "1".into()), ("y".into(), "2".into())],
        files: vec![("a.scad".into(), "//a".into()), ("b.scad".into(), "//b".into())],
        binary_files: vec![("a.stl".into(), vec![1]), ("b.stl".into(), vec![2])],
        font_files: vec![vec![3], vec![4]],
    };
    let b = Request {
        params: a.params.iter().rev().cloned().collect(),
        files: a.files.iter().rev().cloned().collect(),
        binary_files: a.binary_files.iter().rev().cloned().collect(),
        font_files: a.font_files.iter().rev().cloned().collect(),
        source: a.source.clone(),
    };
    assert!(StructuredCacheKey::new(&a, false).same(&StructuredCacheKey::new(&b, false)));
    assert!(!StructuredCacheKey::new(&a, false).same(&StructuredCacheKey::new(&a, true)));
}

#[test]
fn the_last_value_of_a_parameter_counts_in_keys() {
    let with = |params: &[(&str, &str)]| Request {
        source: "cube(x);".to_string(),
        params: params.iter().map(|(k, v)| (k.to_string(), v.to_string())).collect(),
        files: Vec::new(),
        binary_files: Vec::new(),
        font_files: Vec::new(),
    };
    let key = |params: &[(&str, &str)]| StructuredCacheKey::new(&with(params), false);
    let once = key(&[("x", "1"), ("x", "2"), ("y", "3")]);
    assert!(once.same(&key(&[("y", "3"), ("x", "1"), ("x", "2")])));
    assert!(!once.same(&key(&[("x", "2"), ("x", "1"), ("y", "3")])));
}
