use company_directory::{Add, Company, Operation, Response, Retrieve};

fn owned(lines: &[&str]) -> Vec<String> {
    lines.iter().map(|l| l.to_string()).collect()
}

const USAGE: [&str; 3] = ["Commands:", "add <name> to <department>", "ret [department]"];

#[test]
fn adding_says_nothing() {
    let mut company = Company::new();
    let response = company.respond("add Alice to Engineering\n");
    assert_eq!(response, Response::Added);
    assert_eq!(response.lines(), Vec::<String>::new());
    assert!(!response.ends_session());
    assert_eq!(company.retrieve_company(), owned(&["Alice"]));
}

#[test]
fn department_is_answered_with_its_names() {
    let mut company = Company::new();
    company.respond("add Zed to Engineering");
    company.respond("add Ann to Engineering");
    company.respond("add Bob to Sales");
    let response = company.respond("ret Engineering\n");
    assert_eq!(response, Response::People(owned(&["Ann", "Zed"])));
    assert_eq!(response.lines(), owned(&["Ann", "Zed"]));
    assert!(!response.ends_session());
}

#[test]
fn company_is_answered_with_all_names() {
    let mut company = Company::new();
    company.respond("add Ann to Eng");
    company.respond("add Bob to Sales");
    let response = company.respond("retrieve");
    assert_eq!(response, Response::People(owned(&["Ann", "Bob"])));
    assert_eq!(response.lines(), owned(&["Ann", "Bob"]));
}

#[test]
fn unknown_department_is_answered_with_a_message() {
    let mut company = Company::new();
    company.respond("add Ann to Eng");
    let response = company.respond("ret Sales");
    assert_eq!(response, Response::NoDepartment);
    assert_eq!(response.lines(), owned(&["There is no people in the department."]));
    assert!(!response.ends_session());
    assert_eq!(company.retrieve_company(), owned(&["Ann"]));
}

#[test]
fn empty_company_is_answered_with_a_message() {
    let mut company = Company::new();
    let response = company.respond("ret");
    assert_eq!(response, Response::NoCompany);
    assert_eq!(response.lines(), owned(&["There is no people in the company."]));
    assert!(!response.ends_session());
}

#[test]
fn unknown_keyword_is_answered_with_the_usage_text() {
    let mut company = Company::new();
    company.respond("add Ann to Eng");
    for line in ["hello world", "help", "list Eng", "remove Ann from Eng", "0"] {
        let response = company.respond(line);
        assert_eq!(response, Response::Usage);
        assert_eq!(response.lines(), owned(&USAGE));
        assert!(!response.ends_session());
    }
    assert_eq!(company.retrieve_company(), owned(&["Ann"]));
}

#[test]
fn add_without_department_is_answered_with_the_usage_text_and_adds_nobody() {
    let mut company = Company::new();
    let response = company.respond("add Alice");
    assert_eq!(response, Response::Usage);
    assert_eq!(response.lines(), owned(&USAGE));
    assert_eq!(company.retrieve_company(), Vec::<String>::new());
    assert_eq!(company.retrieve_department("Alice".to_string()), None);
    assert_eq!(company.respond("ret"), Response::NoCompany);
}

#[test]
fn blank_line_is_answered_with_the_usage_text() {
    let mut company = Company::new();
    assert_eq!(company.respond(""), Response::Usage);
    assert_eq!(company.respond("\n"), Response::Usage);
    assert_eq!(company.respond("  \t\n"), Response::Usage);
}

#[test]
fn quit_ends_the_session() {
    let mut company = Company::new();
    company.respond("add Ann to Eng");
    for line in ["q", "quit", "QUIT\n"] {
        let response = company.respond(line);
        assert_eq!(response, Response::Bye);
        assert_eq!(response.lines(), owned(&["Bye!"]));
        assert!(response.ends_session());
    }
    assert_eq!(company.retrieve_company(), owned(&["Ann"]));
}

#[test]
fn adding_twice_is_answered_with_the_name_twice() {
    let mut company = Company::new();
    company.respond("add Ann to Eng");
    company.respond("add Ann to Eng");
    assert_eq!(company.respond("ret Eng").lines(), owned(&["Ann", "Ann"]));
    assert_eq!(company.respond("ret").lines(), owned(&["Ann", "Ann"]));
}

#[test]
fn operations_are_carried_out_as_lines_are() {
    let mut company = Company::new();
    let added = company.apply(Operation::Add(Add {
        name: "Zed".to_string(),
        department: "Eng".to_string(),
    }));
    assert_eq!(added, Response::Added);
    company.apply(Operation::Add(Add { name: "Ann".to_string(), department: "Ops".to_string() }));
    assert_eq!(
        company.apply(Operation::Retrieve(Retrieve::Department("Eng".to_string()))),
        Response::People(owned(&["Zed"]))
    );
    assert_eq!(
        company.apply(Operation::Retrieve(Retrieve::Department("HR".to_string()))),
        Response::NoDepartment
    );
    assert_eq!(
        company.apply(Operation::Retrieve(Retrieve::Company)),
        Response::People(owned(&["Ann", "Zed"]))
    );
    assert_eq!(company.apply(Operation::Help), Response::Usage);
    assert_eq!(company.apply(Operation::Quit), Response::Bye);
}

#[test]
fn only_the_farewell_ends_the_session() {
    assert!(Response::Bye.ends_session());
    assert!(!Response::Added.ends_session());
    assert!(!Response::People(owned(&["Ann"])).ends_session());
    assert!(!Response::NoDepartment.ends_session());
    assert!(!Response::NoCompany.ends_session());
    assert!(!Response::Usage.ends_session());
}
