//! The directory of a company, as it is kept in memory.

use crate::directory::{
    is_directory, lemma_roster_split, listing, roster, with_person, Directory,
};
use crate::order::{name_order, str_eq};
use crate::sorting::sort;
use vstd::multiset::Multiset;
use vstd::prelude::*;
use vstd::relations::*;
use vstd::seq_lib::*;

verus! {

/// One department and the sorted list of its people.
#[derive(Debug)]
struct Department {
    name: String,
    people: Vec<String>,
}

/// The people of a company, department by department.
///
/// Seen as a [`Directory`], a company maps each department that somebody was
/// added to onto the sorted list of its people.
#[derive(Debug)]
pub struct Company {
    departments: Vec<Department>,
}

/// The directory that a sequence of departments stands for.
spec fn as_directory(departments: Seq<Department>) -> Directory
    decreases departments.len(),
{
    if departments.len() == 0 {
        Map::empty()
    } else {
        as_directory(departments.drop_last()).insert(
            departments.last().name@,
            departments.last().people.deep_view(),
        )
    }
}

/// No department occurs twice.
spec fn distinct(departments: Seq<Department>) -> bool {
    forall|i: int, j: int|
        0 <= i < j < departments.len() ==> departments[i].name@ != departments[j].name@
}

/// Every list is sorted and holds somebody.
spec fn lists_in_order(departments: Seq<Department>) -> bool {
    forall|i: int|
        0 <= i < departments.len() ==> (#[trigger] departments[i]).people.len() > 0 && sorted_by(
            departments[i].people.deep_view(),
            name_order(),
        )
}

/// What a sequence of distinct departments stands for: the departments of the
/// directory are those of the sequence, each with its own list.
proof fn lemma_as_directory(departments: Seq<Department>)
    requires
        distinct(departments),
    ensures
        as_directory(departments).dom().finite(),
        forall|d: Seq<char>|
            as_directory(departments).dom().contains(d) <==> exists|i: int|
                0 <= i < departments.len() && #[trigger] departments[i].name@ == d,
        forall|i: int|
            0 <= i < departments.len() ==> as_directory(
                departments,
            )[#[trigger] departments[i].name@] == departments[i].people.deep_view(),
    decreases departments.len(),
{
    if departments.len() > 0 {
        let front = departments.drop_last();
        lemma_as_directory(front);
        assert forall|d: Seq<char>| as_directory(departments).dom().contains(d) implies exists|
            i: int,
        |
            0 <= i < departments.len() && #[trigger] departments[i].name@ == d by {
            if d == departments.last().name@ {
                assert(departments[departments.len() - 1].name@ == d);
            } else {
                let i = choose|i: int| 0 <= i < front.len() && #[trigger] front[i].name@ == d;
                assert(departments[i].name@ == d);
            }
        }
        assert forall|i: int| 0 <= i < departments.len() implies as_directory(
            departments,
        ).dom().contains(#[trigger] departments[i].name@) && as_directory(
            departments,
        )[departments[i].name@] == departments[i].people.deep_view() by {
            if i < departments.len() - 1 {
                assert(front[i].name@ == departments[i].name@);
                assert(departments[i].name@ != departments[departments.len() - 1].name@);
            }
        }
    }
}

/// Replacing the list of a department replaces it in the directory.
proof fn lemma_list_replaced(departments: Seq<Department>, i: int, department: Department)
    requires
        distinct(departments),
        0 <= i < departments.len(),
        department.name@ == departments[i].name@,
    ensures
        distinct(departments.update(i, department)),
        as_directory(departments.update(i, department)) == as_directory(departments).insert(
            department.name@,
            department.people.deep_view(),
        ),
{
    let after = departments.update(i, department);
    assert(distinct(after)) by {
        assert forall|a: int, b: int| 0 <= a < b < after.len() implies after[a].name@
            != after[b].name@ by {
            assert(after[a].name@ == departments[a].name@);
            assert(after[b].name@ == departments[b].name@);
        }
    }
    lemma_as_directory(departments);
    lemma_as_directory(after);
    let expected = as_directory(departments).insert(
        department.name@,
        department.people.deep_view(),
    );
    let old_dom = as_directory(departments).dom();
    let new_dom = as_directory(after).dom();
    assert forall|d: Seq<char>| #[trigger] new_dom.contains(d) implies old_dom.contains(d) by {
        let k = choose|k: int| 0 <= k < after.len() && #[trigger] after[k].name@ == d;
        assert(departments[k].name@ == d);
    }
    assert forall|d: Seq<char>| #[trigger] old_dom.contains(d) implies new_dom.contains(d)
        && as_directory(after)[d] == expected[d] by {
        let k = choose|k: int| 0 <= k < departments.len() && #[trigger] departments[k].name@ == d;
        assert(after[k].name@ == d);
        if k != i {
            assert(after[k] == departments[k]);
        }
    }
    assert(old_dom.contains(departments[i].name@));
    assert(as_directory(after).dom() =~= expected.dom());
    assert(as_directory(after) =~= expected);
}

/// Everybody on the lists of a sequence of departments.
spec fn everybody(departments: Seq<Department>) -> Multiset<Seq<char>>
    decreases departments.len(),
{
    if departments.len() == 0 {
        Multiset::empty()
    } else {
        everybody(departments.drop_last()).add(
            departments.last().people.deep_view().to_multiset(),
        )
    }
}

/// The lists of distinct departments together are the roster of their
/// directory.
proof fn lemma_everybody_is_roster(departments: Seq<Department>)
    requires
        distinct(departments),
    ensures
        everybody(departments) == roster(as_directory(departments)),
    decreases departments.len(),
{
    lemma_as_directory(departments);
    if departments.len() > 0 {
        let front = departments.drop_last();
        let last = departments.last();
        lemma_everybody_is_roster(front);
        lemma_as_directory(front);
        lemma_roster_split(as_directory(departments), last.name@);
        assert(!as_directory(front).dom().contains(last.name@)) by {
            if as_directory(front).dom().contains(last.name@) {
                let k = choose|k: int|
                    0 <= k < front.len() && #[trigger] front[k].name@ == last.name@;
                assert(departments[k].name@ == departments[departments.len() - 1].name@);
            }
        }
        assert(as_directory(departments).remove(last.name@) =~= as_directory(front));
        assert(everybody(front).add(last.people.deep_view().to_multiset())
            =~= last.people.deep_view().to_multiset().add(everybody(front)));
    }
}

/// Puts a copy of every name of `from` at the end of `to`, in order.
pub(crate) fn push_copies(to: &mut Vec<String>, from: &Vec<String>)
    ensures
        final(to).deep_view() == old(to).deep_view() + from.deep_view(),
{
    let ghost start = to.deep_view();
    let mut i: usize = 0;
    assert(to.deep_view() =~= start + from.deep_view().take(0));
    while i < from.len()
        invariant
            i <= from.len(),
            to.deep_view() == start + from.deep_view().take(i as int),
        decreases from.len() - i,
    {
        let ghost so_far = to.deep_view();
        to.push(from[i].clone());
        assert(to.deep_view() =~= so_far.push(from@[i as int]@));
        assert(from.deep_view().take(i + 1) =~= from.deep_view().take(i as int).push(
            from@[i as int]@,
        ));
        i += 1;
    }
    assert(from.deep_view().take(i as int) =~= from.deep_view());
}

impl View for Company {
    type V = Directory;

    closed spec fn view(&self) -> Directory {
        as_directory(self.departments@)
    }
}

impl Company {
    /// No department occurs twice, and every list is sorted and holds
    /// somebody.
    #[verifier::type_invariant]
    pub(crate) closed spec fn well_formed(&self) -> bool {
        distinct(self.departments@) && lists_in_order(self.departments@)
    }

    /// A company without people.
    pub fn new() -> (company: Company)
        ensures
            company@ == Map::<Seq<char>, Seq<Seq<char>>>::empty(),
    {
        Company { departments: Vec::new() }
    }

    /// Where `department` stands in the sequence of departments, if it does.
    fn position(&self, department: &str) -> (at: Option<usize>)
        ensures
            match at {
                Some(i) => i < self.departments.len() && self.departments[i as int].name@
                    == department@,
                None => forall|i: int|
                    0 <= i < self.departments.len() ==> self.departments[i].name@ != department@,
            },
    {
        let mut i: usize = 0;
        while i < self.departments.len()
            invariant
                i <= self.departments.len(),
                forall|k: int| 0 <= k < i ==> self.departments[k].name@ != department@,
            decreases self.departments.len() - i,
        {
            if str_eq(self.departments[i].name.as_str(), department) {
                return Some(i);
            }
            i += 1;
        }
        None
    }

    /// The people of `department`, sorted, or `None` where nobody was ever
    /// added to it.
    pub fn retrieve_department(&self, department: String) -> (people: Option<&Vec<String>>)
        ensures
            is_directory(self@),
            match people {
                Some(list) => {
                    &&& self@.dom().contains(department@)
                    &&& list.deep_view() == self@[department@]
                    &&& sorted_by(list.deep_view(), name_order())
                },
                None => !self@.dom().contains(department@),
            },
    {
        proof {
            use_type_invariant(self);
            lemma_as_directory(self.departments@);
            self.lemma_is_directory();
        }
        match self.position(department.as_str()) {
            Some(i) => Some(&self.departments[i].people),
            None => None,
        }
    }

    /// Adds `name` to the people of `department`.
    ///
    /// The department need not be known before. Its list is sorted again
    /// after the name has joined it; a name that is on the list already is
    /// on it once more afterwards.
    pub fn add(&mut self, department: String, name: String)
        ensures
            final(self)@ == with_person(old(self)@, department@, name@),
            is_directory(final(self)@),
    {
        proof {
            use_type_invariant(&*self);
            lemma_as_directory(self.departments@);
        }
        let at = self.position(department.as_str());
        let mut departments: Vec<Department> = Vec::new();
        core::mem::swap(&mut departments, &mut self.departments);
        let ghost before = departments@;
        let mut people: Vec<String> = Vec::new();
        match at {
            Some(i) => {
                core::mem::swap(&mut people, &mut departments[i].people);
            },
            None => {},
        }
        let ghost listed = people.deep_view();
        assert(listed =~= listing(as_directory(before), department@));
        people.push(name);
        assert(people.deep_view() =~= listed.push(name@));
        let people = sort(people);
        match at {
            Some(i) => {
                departments[i].people = people;
                proof {
                    lemma_list_replaced(before, i as int, departments@[i as int]);
                    assert(departments@ =~= before.update(i as int, departments@[i as int]));
                }
            },
            None => {
                departments.push(Department { name: department, people });
                proof {
                    assert(departments@.drop_last() =~= before);
                    assert(distinct(departments@));
                }
            },
        }
        self.departments = departments;
        proof {
            self.lemma_is_directory();
        }
    }

    /// Everybody in the company, sorted: each name as often as the lists of
    /// all departments together hold it.
    pub fn retrieve_company(&self) -> (people: Vec<String>)
        ensures
            is_directory(self@),
            sorted_by(people.deep_view(), name_order()),
            people.deep_view().to_multiset() == roster(self@),
    {
        broadcast use group_to_multiset_ensures;

        proof {
            use_type_invariant(self);
            self.lemma_is_directory();
            lemma_everybody_is_roster(self.departments@);
        }
        let mut company: Vec<String> = Vec::new();
        let mut i: usize = 0;
        proof {
            assert forall|a: Seq<char>| company.deep_view().to_multiset().count(a) == 0 by {
                to_multiset_contains(company.deep_view(), a);
            }
            assert(company.deep_view().to_multiset() =~= everybody(self.departments@.take(0)));
        }
        while i < self.departments.len()
            invariant
                i <= self.departments.len(),
                company.deep_view().to_multiset() == everybody(self.departments@.take(i as int)),
            decreases self.departments.len() - i,
        {
            let ghost so_far = company.deep_view();
            push_copies(&mut company, &self.departments[i].people);
            proof {
                lemma_multiset_commutative(so_far, self.departments@[i as int].people.deep_view());
                assert(self.departments@.take(i + 1).drop_last() =~= self.departments@.take(
                    i as int,
                ));
            }
            i += 1;
        }
        assert(self.departments@.take(i as int) =~= self.departments@);
        sort(company)
    }

    /// What the invariant of the type says of the directory.
    pub(crate) proof fn lemma_is_directory(&self)
        requires
            self.well_formed(),
        ensures
            is_directory(self@),
    {
        lemma_as_directory(self.departments@);
        assert forall|d: Seq<char>| #[trigger] self@.dom().contains(d) implies self@[d].len() > 0
            && sorted_by(self@[d], name_order()) by {
            let i = choose|i: int|
                0 <= i < self.departments@.len() && #[trigger] self.departments@[i].name@ == d;
            assert(self.departments@[i].people.len() > 0);
        }
    }
}

} // verus!
