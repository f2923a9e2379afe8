use contact_list::contact_list::{ContactDetails, ContactList};

struct TestContext {
    contact_list: ContactList,
}

fn setup() -> TestContext {
    let mut contact_list = ContactList::new();

    contact_list.insert(&ContactDetails {
        name: "Tester".to_string(),
        email: "test@company.com".to_string(),
        phone: "333-444-2222".to_string(),
    });

    contact_list.insert(&ContactDetails {
        name: "Dev".to_string(),
        email: "dev@company.com".to_string(),
        phone: "333-444-2222".to_string(),
    });


    TestContext {
        contact_list
    }
}

#[test]
fn mod_test_search() {
    let mut ctx = setup();

    let contacts = ctx.contact_list.get_all();

    let search_result = ctx.contact_list.find(&String::from("T"));

    assert_eq!(2, contacts.len(),
               "Initial dataset must contain only 2 contacts");
    assert_eq!(1, search_result.len(),
               "Search result must contains only 1 match");
    assert_eq!("Tester", search_result[0].name);
    assert_eq!("test@company.com", search_result[0].email);
    assert_eq!("333-444-2222", search_result[0].phone);
}

#[test]
fn mod_test_insert() {
    let mut ctx = setup();

    let name = "Illia".to_string();
    let phone = "1-222-333-4444".to_string();
    let email = "user@company.com".to_string();

    ctx.contact_list.insert(&ContactDetails {
        name: name.clone(),
        email: email.clone(),
        phone: phone.clone(),
    });
    let search_result = ctx.contact_list.find(&String::from("Illi"));

    assert_eq!(3, ctx.contact_list.get_all().len(),
               "Num of contacts after insert must be 3");
    assert_eq!(1, search_result.len(),
               "Search result must contains only 1 match");
    assert_eq!(name, search_result[0].name);
    assert_eq!(phone, search_result[0].phone);
    assert_eq!(email, search_result[0].email);
}

#[test]
fn mod_test_edit() {
    let mut ctx = setup();

    let name = "Tester".to_string();
    let email = "tester@another.company".to_string();
    let phone = "+375 222 3333".to_string();

    ctx.contact_list.edit(&ContactDetails {
        name: name.to_string(),
        email: email.clone(),
        phone: phone.clone(),
    });

    let search_result = ctx.contact_list.find(&String::from("Tester"));

    assert_eq!(1, search_result.len(),
               "Search result must contains only 1 match");
    assert_eq!(name, search_result[0].name);
    assert_eq!(phone, search_result[0].phone);
    assert_eq!(email, search_result[0].email);
}

#[test]
fn mod_test_delete() {
    let mut ctx = setup();

    let name = "Tester".to_string();

    ctx.contact_list.delete(&name);

    let contacts = ctx.contact_list.get_all();

    assert_eq!(1, contacts.len(),
               "Search result must contains only 1 match");
    assert!(ctx.contact_list.find(&name).is_empty(),
            "Searching a deleted contact must return an empty dataset");
}

#[test]
fn mod_test_get_contacts_pagination() {
    let mut ctx = setup();

    let result = ctx.contact_list.get_contacts(0);

    assert_eq!(2, result.len(),
               "If contact list is less than page size, all contacts must be returned");

    let result = ctx.contact_list.get_contacts(1);

    assert_eq!(1, result.len(),
               "If contact list is less than page size and offset is in the middle, \
                partial dataset must be returned");

    let result = ctx.contact_list.get_contacts(2);
    assert!(result.is_empty(),
            "If outset is beyond the contact list, empty dataset must be returned");


    let new_contacts = vec![
        ContactDetails {
            name: "x".to_string(),
            phone: "1111-1111-111".to_string(),
            email: "x@company.com".to_string()
        },
        ContactDetails {
            name: "y".to_string(),
            phone: "1111-1111-111".to_string(),
            email: "y@company.com".to_string()
        },
        ContactDetails {
            name: "z".to_string(),
            phone: "1111-1111-111".to_string(),
            email: "z@company.com".to_string()
        },
    ];

    new_contacts.iter().for_each(|c| ctx.contact_list.insert(&c));

    let result = ctx.contact_list.get_contacts(2);

    assert_eq!(3, result.len(),
               "If there are enough elements in the dataset beyond the offset, \
                the size of the paginated dataset must be equal to PAGE_SIZE");


    for i in 0..2 {
        assert_eq!(&new_contacts[i], &result[i], "Contacts must be sorted alphabetically");
    }
}
