//! Commands, and how a line of text is read as one.
//!
//! The first word of a line, whatever its case, picks the command; the words
//! after it are taken as they stand. A line that cannot be read asks for the
//! usage text: nothing is ever rejected, and a line without words is read
//! like any other line that names no command.

use crate::order::str_eq;
use crate::words::{split_whitespace, words};
use vstd::prelude::*;
use vstd::slice::slice_subrange;

verus! {

/// What a command asks for, over plain text.
pub enum Command {
    /// Put `name` on the list of `department`.
    AddPerson { name: Seq<char>, department: Seq<char> },
    /// List the people of `department`.
    ListDepartment { department: Seq<char> },
    /// List everybody.
    ListCompany,
    /// Show the usage text.
    Help,
    /// Leave.
    Quit,
}

/// A person to put on the list of a department.
#[derive(Debug, PartialEq, Eq)]
pub struct Add {
    pub name: String,
    pub department: String,
}

/// Whose names to list.
#[derive(Debug, PartialEq, Eq)]
pub enum Retrieve {
    /// The people of one department.
    Department(String),
    /// Everybody.
    Company,
}

/// A command as read from a line.
#[derive(Debug, PartialEq, Eq)]
pub enum Operation {
    Add(Add),
    Retrieve(Retrieve),
    Help,
    Quit,
}

impl View for Operation {
    type V = Command;

    open spec fn view(&self) -> Command {
        match self {
            Operation::Add(add) => Command::AddPerson {
                name: add.name@,
                department: add.department@,
            },
            Operation::Retrieve(Retrieve::Department(department)) => Command::ListDepartment {
                department: department@,
            },
            Operation::Retrieve(Retrieve::Company) => Command::ListCompany,
            Operation::Help => Command::Help,
            Operation::Quit => Command::Quit,
        }
    }
}

/// What `str::to_lowercase` returns for `s`: the text with every character
/// replaced by its Unicode lower case form. The mapping is a fixed table of
/// the standard library; nothing more is claimed of it here.
pub uninterp spec fn lowercase(s: Seq<char>) -> Seq<char>;

/// `str::to_lowercase` returns what [`lowercase`] names. Believed, not
/// proved.
pub assume_specification[ str::to_lowercase ](s: &str) -> (lower: String)
    ensures
        lower@ == lowercase(s@),
;

/// The command that `keyword`, already in lower case, and the words after it
/// stand for.
///
/// * `add`: the first word after it is the name and the third the department;
///   the second, a connecting word, is passed over. With fewer than three
///   words the usage text is asked for.
/// * `ret`, `retrieve`: with a word after it, that department; without one,
///   everybody.
/// * `q`, `quit`: leave.
/// * anything else: the usage text.
pub open spec fn command_for(keyword: Seq<char>, arguments: Seq<Seq<char>>) -> Command {
    if keyword == "add"@ {
        if arguments.len() >= 3 {
            Command::AddPerson { name: arguments[0], department: arguments[2] }
        } else {
            Command::Help
        }
    } else if keyword == "ret"@ || keyword == "retrieve"@ {
        if arguments.len() >= 1 {
            Command::ListDepartment { department: arguments[0] }
        } else {
            Command::ListCompany
        }
    } else if keyword == "q"@ || keyword == "quit"@ {
        Command::Quit
    } else {
        Command::Help
    }
}

/// The command that `line` stands for.
pub open spec fn parse(line: Seq<char>) -> Command {
    let found = words(line);
    if found.len() == 0 {
        Command::Help
    } else {
        command_for(lowercase(found[0]), found.skip(1))
    }
}

impl Operation {
    /// The command for a keyword that is already in lower case and the words
    /// that follow it on the line.
    pub fn from_keyword(keyword: &str, arguments: &[String]) -> (op: Operation)
        ensures
            op@ == command_for(keyword@, arguments.deep_view()),
    {
        if str_eq(keyword, "add") {
            if arguments.len() >= 3 {
                Operation::Add(
                    Add { name: arguments[0].clone(), department: arguments[2].clone() },
                )
            } else {
                Operation::Help
            }
        } else if str_eq(keyword, "ret") || str_eq(keyword, "retrieve") {
            if arguments.len() >= 1 {
                Operation::Retrieve(Retrieve::Department(arguments[0].clone()))
            } else {
                Operation::Retrieve(Retrieve::Company)
            }
        } else if str_eq(keyword, "q") || str_eq(keyword, "quit") {
            Operation::Quit
        } else {
            Operation::Help
        }
    }

    /// Reads one line as a command.
    ///
    /// Every line is read as some command. A line without words asks for the
    /// usage text, as does one whose first word names no command.
    pub fn read_command(input: &str) -> (op: Operation)
        ensures
            op@ == parse(input@),
    {
        let found = split_whitespace(input);
        if found.len() == 0 {
            return Operation::Help;
        }
        let keyword = found[0].as_str().to_lowercase();
        let arguments = slice_subrange(found.as_slice(), 1, found.len());
        assert(arguments.deep_view() =~= found.deep_view().skip(1));
        Operation::from_keyword(keyword.as_str(), arguments)
    }
}

/// A line without words asks for the usage text.
pub proof fn lemma_blank_line_is_help(line: Seq<char>)
    ensures
        words(line).len() == 0 ==> parse(line) == Command::Help,
{
}

/// A line whose first word, in lower case, is none of `add`, `ret`,
/// `retrieve`, `q` and `quit` asks for the usage text, whatever follows.
pub proof fn lemma_unknown_keyword_is_help(line: Seq<char>)
    ensures
        ({
            let keyword = lowercase(words(line)[0]);
            &&& words(line).len() > 0
            &&& keyword != "add"@
            &&& keyword != "ret"@
            &&& keyword != "retrieve"@
            &&& keyword != "q"@
            &&& keyword != "quit"@
        }) ==> parse(line) == Command::Help,
{
}

/// An `add` line with a name, a connecting word and a department adds that
/// name to that department, whatever the connecting word and whatever
/// follows the department. An `add` line with fewer words asks for the usage
/// text.
pub proof fn lemma_add_line(line: Seq<char>)
    ensures
        words(line).len() >= 4 && lowercase(words(line)[0]) == "add"@ ==> parse(line) == (
        Command::AddPerson { name: words(line)[1], department: words(line)[3] }),
        0 < words(line).len() < 4 && lowercase(words(line)[0]) == "add"@ ==> parse(line)
            == Command::Help,
{
}

} // verus!
