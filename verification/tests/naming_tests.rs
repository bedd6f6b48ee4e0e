use type_rs::naming::{decimal_text, get_collision_free_typename};

#[test]
fn free_name_is_kept() {
    let mut created = Vec::new();
    let name = get_collision_free_typename(String::from("Data"), &mut created);
    assert_eq!(name, "Data");
    assert_eq!(created, vec![String::from("Data")]);
}

#[test]
fn taken_name_gets_number_two() {
    let mut created = Vec::new();
    assert_eq!(get_collision_free_typename(String::from("Data"), &mut created), "Data");
    assert_eq!(get_collision_free_typename(String::from("Data"), &mut created), "Data2");
    assert_eq!(get_collision_free_typename(String::from("Data"), &mut created), "Data3");
    assert_eq!(
        created,
        vec![String::from("Data"), String::from("Data2"), String::from("Data3")]
    );
}

#[test]
fn numbered_name_that_is_taken_is_skipped() {
    let mut created = vec![String::from("Props2"), String::from("Props")];
    assert_eq!(get_collision_free_typename(String::from("Props"), &mut created), "Props3");
    assert_eq!(get_collision_free_typename(String::from("Props2"), &mut created), "Props22");
    assert_eq!(get_collision_free_typename(String::from("Other"), &mut created), "Other");
}

#[test]
fn numbers_run_past_nine() {
    let mut created = Vec::new();
    let mut last = String::new();
    for _ in 0..11 {
        last = get_collision_free_typename(String::from("A"), &mut created);
    }
    assert_eq!(last, "A11");
    assert_eq!(created.len(), 11);
}

#[test]
fn decimal_text_writes_digits() {
    assert_eq!(decimal_text(0), "0");
    assert_eq!(decimal_text(7), "7");
    assert_eq!(decimal_text(10), "10");
    assert_eq!(decimal_text(1234567890), "1234567890");
    assert_eq!(decimal_text(u128::MAX), u128::MAX.to_string());
}
