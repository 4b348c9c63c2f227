//! Carrying out commands, and what is said in answer.
//!
//! One step of a session takes a line, reads it as a command, carries the
//! command out on the company and gives the answer back as lines of text. It
//! reads and prints nothing itself.

use crate::command::{
    lemma_add_line, lemma_unknown_keyword_is_help, lowercase, parse, Add, Command, Operation,
    Retrieve,
};
use crate::company::{push_copies, Company};
use crate::directory::{
    is_directory, lemma_listing_after_add, lemma_roster_after_add, listing, roster, with_person,
    Directory,
};
use crate::order::name_order;
use crate::words::words;
use vstd::prelude::*;
use vstd::relations::*;
use vstd::seq_lib::*;

verus! {

/// An answer, over plain text.
pub enum Reply {
    /// Nothing is said.
    Added,
    /// These names, one to a line.
    People(Seq<Seq<char>>),
    /// Nobody was ever added to the department that was asked for.
    NoDepartment,
    /// Nobody was ever added at all.
    NoCompany,
    /// The usage text.
    Usage,
    /// The farewell; the session is over.
    Bye,
}

/// The answer to a command.
#[derive(Debug, PartialEq, Eq)]
pub enum Response {
    /// A person was added; nothing is said.
    Added,
    /// The names that were asked for, sorted.
    People(Vec<String>),
    /// Nobody was ever added to the department that was asked for.
    NoDepartment,
    /// Nobody was ever added at all.
    NoCompany,
    /// The usage text is due.
    Usage,
    /// The session is over.
    Bye,
}

impl View for Response {
    type V = Reply;

    open spec fn view(&self) -> Reply {
        match self {
            Response::Added => Reply::Added,
            Response::People(list) => Reply::People(list.deep_view()),
            Response::NoDepartment => Reply::NoDepartment,
            Response::NoCompany => Reply::NoCompany,
            Response::Usage => Reply::Usage,
            Response::Bye => Reply::Bye,
        }
    }
}

/// The lines in which `reply` is given.
pub open spec fn text(reply: Reply) -> Seq<Seq<char>> {
    match reply {
        Reply::Added => Seq::empty(),
        Reply::People(list) => list,
        Reply::NoDepartment => seq!["There is no people in the department."@],
        Reply::NoCompany => seq!["There is no people in the company."@],
        Reply::Usage => seq!["Commands:"@, "add <name> to <department>"@, "ret [department]"@],
        Reply::Bye => seq!["Bye!"@],
    }
}

/// `reply` and `after` are what carrying out `command` on `before` gives.
///
/// Only adding a person changes the directory. A department is listed as it
/// stands; the company is listed as the sorted list of everybody on its
/// roster. Where there is nobody to list, the answer says so.
pub open spec fn answers(
    before: Directory,
    command: Command,
    after: Directory,
    reply: Reply,
) -> bool {
    match command {
        Command::AddPerson { name, department } => {
            &&& after == with_person(before, department, name)
            &&& reply == Reply::Added
        },
        Command::ListDepartment { department } => {
            &&& after == before
            &&& reply == if before.dom().contains(department) {
                Reply::People(before[department])
            } else {
                Reply::NoDepartment
            }
        },
        Command::ListCompany => {
            &&& after == before
            &&& if roster(before).len() == 0 {
                reply == Reply::NoCompany
            } else {
                &&& reply is People
                &&& sorted_by(reply->People_0, name_order())
                &&& reply->People_0.to_multiset() == roster(before)
            }
        },
        Command::Help => after == before && reply == Reply::Usage,
        Command::Quit => after == before && reply == Reply::Bye,
    }
}

/// A copy of `list`.
fn copy_of(list: &Vec<String>) -> (copy: Vec<String>)
    ensures
        copy.deep_view() == list.deep_view(),
{
    let mut copy: Vec<String> = Vec::new();
    push_copies(&mut copy, list);
    copy
}

impl Response {
    /// The lines to print for this answer, in order.
    pub fn lines(&self) -> (lines: Vec<String>)
        ensures
            lines.deep_view() == text(self@),
    {
        let mut lines: Vec<String> = Vec::new();
        match self {
            Response::Added => {},
            Response::People(list) => {
                lines = copy_of(list);
            },
            Response::NoDepartment => {
                lines.push("There is no people in the department.".to_owned());
            },
            Response::NoCompany => {
                lines.push("There is no people in the company.".to_owned());
            },
            Response::Usage => {
                lines.push("Commands:".to_owned());
                lines.push("add <name> to <department>".to_owned());
                lines.push("ret [department]".to_owned());
            },
            Response::Bye => {
                lines.push("Bye!".to_owned());
            },
        }
        lines
    }

    /// Whether the session is over with this answer.
    pub fn ends_session(&self) -> (over: bool)
        ensures
            over == (self@ is Bye),
    {
        match self {
            Response::Bye => true,
            _ => false,
        }
    }
}

impl Company {
    /// Carries out `operation` and gives the answer.
    pub fn apply(&mut self, operation: Operation) -> (response: Response)
        ensures
            answers(old(self)@, operation@, final(self)@, response@),
            is_directory(final(self)@),
    {
        proof {
            use_type_invariant(&*self);
            self.lemma_is_directory();
        }
        match operation {
            Operation::Add(Add { name, department }) => {
                self.add(department, name);
                Response::Added
            },
            Operation::Retrieve(Retrieve::Department(department)) => {
                match self.retrieve_department(department) {
                    Some(list) => Response::People(copy_of(list)),
                    None => Response::NoDepartment,
                }
            },
            Operation::Retrieve(Retrieve::Company) => {
                let people = self.retrieve_company();
                proof {
                    to_multiset_len(people.deep_view());
                }
                if people.is_empty() {
                    Response::NoCompany
                } else {
                    Response::People(people)
                }
            },
            Operation::Help => Response::Usage,
            Operation::Quit => Response::Bye,
        }
    }

    /// Reads `line` as a command, carries it out and gives the answer.
    pub fn respond(&mut self, line: &str) -> (response: Response)
        ensures
            answers(old(self)@, parse(line@), final(self)@, response@),
            is_directory(final(self)@),
    {
        let operation = Operation::read_command(line);
        self.apply(operation)
    }
}

/// Asking for a department that nobody was ever added to is answered with
/// one line that says so, and changes nothing.
pub proof fn lemma_absent_department(
    before: Directory,
    department: Seq<char>,
    after: Directory,
    reply: Reply,
)
    requires
        !before.dom().contains(department),
        answers(before, Command::ListDepartment { department }, after, reply),
    ensures
        after == before,
        text(reply) == seq!["There is no people in the department."@],
{
}

/// Asking for everybody where nobody was ever added is answered with one
/// line that says so, and changes nothing.
pub proof fn lemma_empty_company(after: Directory, reply: Reply)
    requires
        answers(Map::<Seq<char>, Seq<Seq<char>>>::empty(), Command::ListCompany, after, reply),
    ensures
        after == Map::<Seq<char>, Seq<Seq<char>>>::empty(),
        text(reply) == seq!["There is no people in the company."@],
{
}

/// A line whose first word, in lower case, is none of `add`, `ret`,
/// `retrieve`, `q` and `quit` is answered with the usage text, and changes
/// nothing.
pub proof fn lemma_unknown_keyword_gets_usage(
    before: Directory,
    line: Seq<char>,
    after: Directory,
    reply: Reply,
)
    ensures
        ({
            let keyword = lowercase(words(line)[0]);
            &&& words(line).len() > 0
            &&& keyword != "add"@
            &&& keyword != "ret"@
            &&& keyword != "retrieve"@
            &&& keyword != "q"@
            &&& keyword != "quit"@
            &&& answers(before, parse(line), after, reply)
        }) ==> after == before && text(reply) == seq![
            "Commands:"@,
            "add <name> to <department>"@,
            "ret [department]"@,
        ],
{
    lemma_unknown_keyword_is_help(line);
}

/// An `add` line that stops before the department is answered with the
/// usage text, and adds nobody.
pub proof fn lemma_short_add_gets_usage(
    before: Directory,
    line: Seq<char>,
    after: Directory,
    reply: Reply,
)
    ensures
        ({
            &&& 0 < words(line).len() < 4
            &&& lowercase(words(line)[0]) == "add"@
            &&& answers(before, parse(line), after, reply)
        }) ==> after == before && text(reply) == seq![
            "Commands:"@,
            "add <name> to <department>"@,
            "ret [department]"@,
        ],
{
    lemma_add_line(line);
}

/// An `add` line with a name, a connecting word and a department says
/// nothing and puts the name on the list of everybody exactly once more. The
/// list of the department holds the name once more too, and is sorted.
pub proof fn lemma_add_line_adds_once(
    before: Directory,
    line: Seq<char>,
    after: Directory,
    reply: Reply,
)
    requires
        is_directory(before),
    ensures
        ({
            &&& words(line).len() >= 4
            &&& lowercase(words(line)[0]) == "add"@
            &&& answers(before, parse(line), after, reply)
        }) ==> ({
            let name = words(line)[1];
            let department = words(line)[3];
            &&& text(reply).len() == 0
            &&& is_directory(after)
            &&& roster(after) == roster(before).insert(name)
            &&& roster(after).count(name) == roster(before).count(name) + 1
            &&& sorted_by(listing(after, department), name_order())
            &&& listing(after, department).to_multiset() == listing(
                before,
                department,
            ).to_multiset().insert(name)
        }),
{
    lemma_add_line(line);
    if words(line).len() >= 4 {
        let name = words(line)[1];
        let department = words(line)[3];
        lemma_roster_after_add(before, department, name);
        lemma_listing_after_add(before, department, name);
    }
}

} // verus!
