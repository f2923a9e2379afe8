use contact_list::contact_list::{ContactDetails, ContactList, PAGE_SIZE};
use contact_list::contact_list_app::ContactList as ByValue;

fn rec(name: &str, email: &str) -> ContactDetails {
    ContactDetails { name: name.to_string(), email: email.to_string(), phone: "000".to_string() }
}

fn names(v: &[ContactDetails]) -> Vec<String> {
    v.iter().map(|c| c.name.clone()).collect()
}

#[test]
fn scenario_two_names_listing_and_prefix() {
    let mut cl = ContactList::new();
    cl.insert(&rec("Dev", "d@x"));
    cl.insert(&rec("Tester", "t@x"));
    assert_eq!(names(&cl.get_all()), vec!["Dev", "Tester"]);
    assert_eq!(names(&cl.find(&"T".to_string())), vec!["Tester"]);
}

#[test]
fn scenario_edit_overwrites() {
    let mut cl = ContactList::new();
    cl.insert(&rec("Tester", "x@x"));
    cl.edit(&rec("Tester", "y@y"));
    let found = cl.find(&"Tester".to_string());
    assert_eq!(found.len(), 1);
    assert_eq!(found[0].email, "y@y");
}

#[test]
fn scenario_delete_absent_changes_nothing() {
    let mut cl = ContactList::new();
    cl.insert(&rec("Dev", "d@x"));
    let before = cl.get_all();
    assert!(cl.find(&"Tester".to_string()).is_empty());
    cl.delete(&"Tester".to_string());
    assert!(cl.find(&"Tester".to_string()).is_empty());
    assert_eq!(cl.get_all(), before);
}

#[test]
fn scenario_delete_middle_of_three() {
    let mut cl = ContactList::new();
    for n in ["x", "y", "z"] {
        cl.insert(&rec(n, "e"));
    }
    cl.delete(&"y".to_string());
    assert_eq!(names(&cl.get_all()), vec!["x", "z"]);
    assert!(cl.find(&"y".to_string()).is_empty());
}

#[test]
fn scenario_pages_of_five() {
    let mut cl = ContactList::new();
    for n in ["e", "c", "a", "d", "b"] {
        cl.insert(&rec(n, "e"));
    }
    assert_eq!(names(&cl.get_contacts(2)), vec!["c", "d", "e"]);
    assert!(cl.get_contacts(5).is_empty());
}

#[test]
fn insert_twice_same_state() {
    let mut once = ContactList::new();
    let mut twice = ContactList::new();
    once.insert(&rec("Ann", "a"));
    twice.insert(&rec("Ann", "a"));
    twice.insert(&rec("Ann", "a"));
    assert_eq!(once.get_all(), twice.get_all());
    assert_eq!(twice.get_all().len(), 1);
}

#[test]
fn listing_sorted_by_scalar_value() {
    let mut cl = ContactList::new();
    for n in ["b", "ab", "a", "Z", "é", "abc", "B"] {
        cl.insert(&rec(n, "e"));
    }
    assert_eq!(names(&cl.get_all()), vec!["B", "Z", "a", "ab", "abc", "b", "é"]);
}

#[test]
fn find_prefix_includes_exact_and_longer() {
    let mut cl = ContactList::new();
    for n in ["an", "ann", "anna", "bob", "a"] {
        cl.insert(&rec(n, "e"));
    }
    assert_eq!(names(&cl.find(&"an".to_string())), vec!["an", "ann", "anna"]);
    assert_eq!(names(&cl.find(&"".to_string())), vec!["a", "an", "ann", "anna", "bob"]);
    assert!(cl.find(&"anx".to_string()).is_empty());
    assert!(cl.find(&"annas".to_string()).is_empty());
}

#[test]
fn pages_rebuild_listing() {
    let mut cl = ContactList::new();
    for n in ["g", "f", "e", "d", "c", "b", "a"] {
        cl.insert(&rec(n, "e"));
    }
    let mut joined = Vec::new();
    let mut offset: i32 = 0;
    while (offset as usize) < cl.get_all().len() {
        joined.extend(cl.get_contacts(offset));
        offset += PAGE_SIZE as i32;
    }
    assert_eq!(joined, cl.get_all());
    assert_eq!(cl.get_contacts(6).len(), 1);
    assert!(cl.get_contacts(7).is_empty());
    assert!(cl.get_contacts(100).is_empty());
}

#[test]
fn names_after_mixed_operations() {
    let mut cl = ContactList::new();
    cl.insert(&rec("a", "1"));
    cl.insert(&rec("ab", "1"));
    cl.edit(&rec("c", "1"));
    cl.delete(&"ab".to_string());
    cl.delete(&"a".to_string());
    cl.insert(&rec("ab", "2"));
    assert_eq!(names(&cl.get_all()), vec!["ab", "c"]);
    assert!(cl.find(&"a".to_string()).iter().all(|c| c.name == "ab" && c.email == "2"));
}

#[test]
fn delete_keeps_longer_names() {
    let mut cl = ContactList::new();
    cl.insert(&rec("an", "1"));
    cl.insert(&rec("anna", "1"));
    cl.delete(&"an".to_string());
    assert_eq!(names(&cl.find(&"an".to_string())), vec!["anna"]);
    cl.delete(&"ann".to_string());
    assert_eq!(names(&cl.get_all()), vec!["anna"]);
}

#[test]
fn from_contacts_later_record_wins() {
    let v = vec![rec("b", "1"), rec("a", "1"), rec("b", "2")];
    let cl = ContactList::from_contacts(&v);
    let all = cl.get_all();
    assert_eq!(names(&all), vec!["a", "b"]);
    assert_eq!(all[1].email, "2");
}

#[test]
fn copied_keeps_fields() {
    let r = ContactDetails { name: "n".to_string(), email: "e".to_string(), phone: "p".to_string() };
    assert_eq!(r.copied(), r);
}

#[test]
fn delete_reports_presence() {
    let mut cl = ContactList::new();
    cl.insert(&rec("an", "1"));
    cl.insert(&rec("anna", "1"));
    assert!(!cl.delete(&"ann".to_string()));
    assert!(!cl.delete(&"bob".to_string()));
    assert!(!cl.delete(&"".to_string()));
    assert!(cl.delete(&"an".to_string()));
    assert!(!cl.delete(&"an".to_string()));
    assert_eq!(names(&cl.get_all()), vec!["anna"]);
}

#[test]
fn by_value_interface_matches() {
    let mut cl = ByValue::new();
    cl.insert(rec("b", "1"));
    cl.edit(rec("a", "1"));
    cl.edit(rec("b", "2"));
    assert_eq!(names(&cl.get_all()), vec!["a", "b"]);
    assert_eq!(cl.find(&"b".to_string())[0].email, "2");
    assert_eq!(names(&cl.get_contacts(1)), vec!["b"]);
    assert!(cl.delete(&"a".to_string()));
    assert_eq!(names(&cl.get_all()), vec!["b"]);
}
