use mbf_bam_quantifier::categorical::Categorical;

#[test]
fn test_cats() {
    let mut cats = Categorical::new();
    assert_eq!(cats.len(), 0);
    cats.push("a");
    assert_eq!(cats.len(), 1);
    assert_eq!(cats.cat_from_value(0), "a");
    assert_eq!(cats.get("a"), Some(0));
    cats.push("b");
    assert_eq!(cats.len(), 2);
    assert_eq!(cats.cat_from_value(1), "b");
    assert_eq!(cats.get("b"), Some(1));
    cats.push("a");
    assert_eq!(cats.len(), 3);
    assert_eq!(cats.cat_from_value(0), "a");
    assert_eq!(cats.get("a"), Some(0));
    assert_eq!(cats.get("b"), Some(1));
    cats.push("c");
    assert_eq!(cats.len(), 4);
    assert_eq!(cats.cat_from_value(2), "c");
    assert_eq!(cats.get("c"), Some(2));
    assert_eq!(cats.values, vec![0, 1, 0, 2]);
}

#[test]
fn categorical_new_empty_holds_empty_strings() {
    let cats = Categorical::new_empty(3);
    assert_eq!(cats.len(), 3);
    assert_eq!(cats.values, vec![0, 0, 0]);
    assert_eq!(cats.cat_from_value(0), "");
    let none = Categorical::new_empty(0);
    assert_eq!(none.len(), 0);
    assert_eq!(none.cats.len(), 0);
}

#[test]
fn categorical_new_empty_push_appends_value() {
    let cats = Categorical::new_empty_push(2, "x");
    assert_eq!(cats.values, vec![0, 0, 1]);
    assert_eq!(cats.cat_from_value(1), "x");
    let same = Categorical::new_empty_push(2, "");
    assert_eq!(same.values, vec![0, 0, 0]);
}

#[test]
fn categorical_first_empty_string_is_a_category() {
    let mut cats = Categorical::new();
    cats.push("");
    cats.push("a");
    assert_eq!(cats.values, vec![0, 1]);
    assert_eq!(cats.cat_from_value(0), "");
    assert_eq!(cats.cat_from_value(1), "a");
}
