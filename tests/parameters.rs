use reliable_delivery::parameters::Parameters;

#[test]
fn canonical_selector_is_sorted() {
    let s = Parameters::from_iter(&[("_sn", "5|"), ("_src", "abc")]);
    assert_eq!(s, "_sn=5|;_src=abc");
    assert_eq!(Parameters::get(&s, "_sn"), Some("5|"));
    assert_eq!(Parameters::values(&s, "_sn"), vec!["5", ""]);
}

#[test]
fn from_iter_sorts_unsorted_input() {
    let s = Parameters::from_iter(&[("_src", "abc"), ("_sn", "5|")]);
    assert_eq!(s, "_sn=5|;_src=abc");
}

#[test]
fn from_iter_keeps_order_of_equal_keys() {
    let s = Parameters::from_iter(&[("b", "1"), ("a", "x"), ("b", "2"), ("a", "y")]);
    assert_eq!(s, "a=x;a=y;b=1;b=2");
}

#[test]
fn from_iter_into_appends_after_existing_text() {
    let mut into = String::from("z=0");
    Parameters::from_iter_into(&[("b", "2"), ("a", "1")], &mut into);
    assert_eq!(into, "z=0;a=1;b=2");
}

#[test]
fn iter_skips_empty_entries_and_splits_at_first_field_separator() {
    let v = Parameters::iter("a=b;;c;d=e=f;");
    assert_eq!(v, vec![("a", "b"), ("c", ""), ("d", "e=f")]);
}

#[test]
fn iter_of_empty_string_is_empty() {
    assert!(Parameters::iter("").is_empty());
    assert!(Parameters::iter(";;").is_empty());
}

#[test]
fn get_returns_first_value_or_none() {
    assert_eq!(Parameters::get("a=1;b=2;a=3", "a"), Some("1"));
    assert_eq!(Parameters::get("a=1;b=2;a=3", "b"), Some("2"));
    assert_eq!(Parameters::get("a=1;b", "b"), Some(""));
    assert_eq!(Parameters::get("a=1;b=2", "c"), None);
    assert_eq!(Parameters::get("", "a"), None);
}

#[test]
fn values_of_absent_key_is_empty() {
    assert!(Parameters::values("a=1|2", "b").is_empty());
    assert_eq!(Parameters::values("a=1|2", "a"), vec!["1", "2"]);
    assert_eq!(Parameters::values("a=|", "a"), vec!["", ""]);
    assert_eq!(Parameters::values("a", "a"), vec![""]);
}

#[test]
fn insert_replaces_every_prior_entry() {
    let (s, old) = Parameters::insert(&[("a", "1"), ("b", "2"), ("a", "4")], "a", "3");
    assert_eq!(s, "a=3;b=2");
    assert_eq!(old, Some("1"));
    let (s, old) = Parameters::insert(&[("b", "2")], "a", "3");
    assert_eq!(s, "a=3;b=2");
    assert_eq!(old, None);
    let es = Parameters::iter("a=1;b=2;c=3");
    let (s, old) = Parameters::insert(&es, "b", "x");
    assert_eq!(s, "a=1;b=x;c=3");
    assert_eq!(old, Some("2"));
}

#[test]
fn remove_drops_the_key() {
    let (s, old) = Parameters::remove(&[("a", "1"), ("b", "2"), ("c", "")], "a");
    assert_eq!(s, "b=2;c");
    assert_eq!(old, Some("1"));
    let (s, old) = Parameters::remove(&[("b", "2")], "a");
    assert_eq!(s, "b=2");
    assert_eq!(old, None);
    let (s, old) = Parameters::remove(&[("b", "1"), ("a", "2")], "c");
    assert_eq!(s, "a=2;b=1");
    assert_eq!(old, None);
}

#[test]
fn append_joined_writes_entries_without_leading_separator() {
    let mut into = String::from("x");
    let es = vec![(String::from("ab"), String::from("cd")), (String::from("e"), String::new())];
    Parameters::append_joined(&es, &mut into);
    assert_eq!(into, "xab=cd;e");
    let mut into = String::from("x");
    Parameters::append_joined(&[], &mut into);
    assert_eq!(into, "x");
}

#[test]
fn concat_keeps_order_and_writes_bare_keys() {
    assert_eq!(Parameters::concat(&[("b", ""), ("a", "1")]), "b;a=1");
    assert_eq!(Parameters::concat(&[]), "");
}

#[test]
fn extend_into_separates_from_existing_text() {
    let mut into = String::from("x=1");
    Parameters::extend_into(&[("y", "2")], &mut into);
    assert_eq!(into, "x=1;y=2");
    let mut into = String::from("x=1");
    Parameters::extend_into(&[], &mut into);
    assert_eq!(into, "x=1");
}

#[test]
fn is_sorted_checks_key_order() {
    assert!(Parameters::is_sorted(&[]));
    assert!(Parameters::is_sorted(&[("a", "9"), ("a", "1"), ("b", "0")]));
    assert!(!Parameters::is_sorted(&[("b", "0"), ("a", "1")]));
    assert!(Parameters::is_sorted(&[("a", ""), ("ab", "")]));
}

#[test]
fn canonical_form_reads_back_sorted() {
    let xs = [("zeta", "1|2"), ("alpha", ""), ("mid", "x")];
    let s = Parameters::from_iter(&xs);
    assert_eq!(
        Parameters::iter(&s),
        vec![("alpha", ""), ("mid", "x"), ("zeta", "1|2")]
    );
}

#[test]
fn random_parameters_have_the_drawn_shape() {
    for _ in 0..20 {
        let mut s = String::new();
        Parameters::rand(&mut s);
        let es = Parameters::iter(&s);
        assert!(es.len() >= 2 && es.len() < 8);
        for (k, v) in es {
            assert!(k.len() >= 2 && k.len() < 8);
            assert!(v.len() >= 2 && v.len() < 8);
            assert!(k.chars().all(|c| c.is_ascii_alphanumeric()));
            assert!(v.chars().all(|c| c.is_ascii_alphanumeric()));
        }
    }
}
