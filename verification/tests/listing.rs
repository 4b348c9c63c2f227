use company_directory::Company;

fn owned(names: &[&str]) -> Vec<String> {
    names.iter().map(|n| n.to_string()).collect()
}

fn add(company: &mut Company, department: &str, name: &str) {
    company.add(department.to_string(), name.to_string());
}

fn department(company: &Company, department: &str) -> Option<Vec<String>> {
    company.retrieve_department(department.to_string()).cloned()
}

#[test]
fn new_company_has_nobody() {
    let company = Company::new();
    assert_eq!(company.retrieve_company(), Vec::<String>::new());
    assert_eq!(department(&company, "Engineering"), None);
    assert_eq!(department(&company, ""), None);
}

#[test]
fn department_is_listed_sorted_whatever_the_order_of_adding() {
    let mut company = Company::new();
    add(&mut company, "Engineering", "Zed");
    add(&mut company, "Engineering", "Ann");
    assert_eq!(department(&company, "Engineering"), Some(owned(&["Ann", "Zed"])));

    let mut other = Company::new();
    add(&mut other, "Engineering", "Ann");
    add(&mut other, "Engineering", "Zed");
    assert_eq!(department(&other, "Engineering"), Some(owned(&["Ann", "Zed"])));
}

#[test]
fn department_stays_sorted_after_every_add() {
    let mut company = Company::new();
    let names = ["Mia", "Bob", "Zed", "Ann", "Lee", "Bob", "Cid"];
    let mut expected: Vec<String> = Vec::new();
    for name in names {
        add(&mut company, "Sales", name);
        expected.push(name.to_string());
        expected.sort();
        assert_eq!(department(&company, "Sales"), Some(expected.clone()));
    }
}

#[test]
fn company_is_the_sorted_union_of_its_departments() {
    let mut company = Company::new();
    add(&mut company, "Eng", "Ann");
    add(&mut company, "Sales", "Bob");
    assert_eq!(company.retrieve_company(), owned(&["Ann", "Bob"]));

    let mut company = Company::new();
    add(&mut company, "Sales", "Bob");
    add(&mut company, "Eng", "Zed");
    add(&mut company, "Eng", "Ann");
    add(&mut company, "Ops", "Mia");
    add(&mut company, "Sales", "Cid");
    assert_eq!(company.retrieve_company(), owned(&["Ann", "Bob", "Cid", "Mia", "Zed"]));
    assert_eq!(department(&company, "Eng"), Some(owned(&["Ann", "Zed"])));
    assert_eq!(department(&company, "Sales"), Some(owned(&["Bob", "Cid"])));
    assert_eq!(department(&company, "Ops"), Some(owned(&["Mia"])));
}

#[test]
fn adding_puts_the_name_on_the_company_list_once_more() {
    let mut company = Company::new();
    add(&mut company, "Eng", "Ann");
    add(&mut company, "Sales", "Bob");
    let before = company.retrieve_company();
    add(&mut company, "Sales", "Ann");
    let after = company.retrieve_company();
    let count = |list: &Vec<String>, name: &str| list.iter().filter(|n| n.as_str() == name).count();
    assert_eq!(count(&after, "Ann"), count(&before, "Ann") + 1);
    assert_eq!(count(&after, "Bob"), count(&before, "Bob"));
    assert_eq!(after.len(), before.len() + 1);
    assert_eq!(after, owned(&["Ann", "Ann", "Bob"]));
    assert_eq!(department(&company, "Sales"), Some(owned(&["Ann", "Bob"])));
    assert_eq!(department(&company, "Eng"), Some(owned(&["Ann"])));
}

#[test]
fn department_that_was_never_added_to_is_absent() {
    let mut company = Company::new();
    add(&mut company, "Eng", "Ann");
    assert_eq!(department(&company, "Sales"), None);
    assert_eq!(department(&company, "Ann"), None);
}

#[test]
fn adding_twice_lists_twice() {
    let mut company = Company::new();
    add(&mut company, "Eng", "Ann");
    add(&mut company, "Eng", "Ann");
    assert_eq!(department(&company, "Eng"), Some(owned(&["Ann", "Ann"])));
    assert_eq!(company.retrieve_company(), owned(&["Ann", "Ann"]));
}

#[test]
fn departments_differ_by_case() {
    let mut company = Company::new();
    add(&mut company, "Eng", "Ann");
    add(&mut company, "eng", "Bob");
    assert_eq!(department(&company, "Eng"), Some(owned(&["Ann"])));
    assert_eq!(department(&company, "eng"), Some(owned(&["Bob"])));
    assert_eq!(department(&company, "ENG"), None);
}

#[test]
fn names_differ_by_case() {
    let mut company = Company::new();
    add(&mut company, "Eng", "ann");
    add(&mut company, "Eng", "Ann");
    add(&mut company, "Eng", "Zed");
    assert_eq!(department(&company, "Eng"), Some(owned(&["Ann", "Zed", "ann"])));
}

#[test]
fn empty_texts_are_departments_and_names_like_any_other() {
    let mut company = Company::new();
    add(&mut company, "", "");
    add(&mut company, "", "Ann");
    add(&mut company, "Eng", "");
    assert_eq!(department(&company, ""), Some(owned(&["", "Ann"])));
    assert_eq!(department(&company, "Eng"), Some(owned(&[""])));
    assert_eq!(company.retrieve_company(), owned(&["", "", "Ann"]));
}

#[test]
fn texts_are_kept_as_they_are_given() {
    let mut company = Company::new();
    add(&mut company, " Eng ", " Ann ");
    assert_eq!(department(&company, " Eng "), Some(owned(&[" Ann "])));
    assert_eq!(department(&company, "Eng"), None);
}

#[test]
fn listing_changes_nothing() {
    let mut company = Company::new();
    add(&mut company, "Eng", "Zed");
    add(&mut company, "Eng", "Ann");
    let first = company.retrieve_company();
    let _ = company.retrieve_department("Eng".to_string());
    let _ = company.retrieve_department("Sales".to_string());
    assert_eq!(company.retrieve_company(), first);
    assert_eq!(department(&company, "Sales"), None);
}

#[test]
fn many_departments_are_kept_apart() {
    let mut company = Company::new();
    let mut everybody: Vec<String> = Vec::new();
    for d in 0..12 {
        for p in (0..5).rev() {
            let name = format!("p{}-{}", p, d);
            company.add(format!("d{}", d), name.clone());
            everybody.push(name);
        }
    }
    for d in 0..12 {
        let expected: Vec<String> = (0..5).map(|p| format!("p{}-{}", p, d)).collect();
        assert_eq!(department(&company, &format!("d{}", d)), Some(expected));
    }
    everybody.sort();
    assert_eq!(company.retrieve_company(), everybody);
}
