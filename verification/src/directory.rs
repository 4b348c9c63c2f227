//! The directory as a mathematical object: a map from each department to
//! the sorted list of its people, and what holds of it.

use crate::order::{lemma_name_order_total, name_order};
use vstd::multiset::Multiset;
use vstd::prelude::*;
use vstd::relations::*;
use vstd::seq_lib::*;

verus! {

/// Each department that has people, with the list of their names.
pub type Directory = Map<Seq<char>, Seq<Seq<char>>>;

/// `m` is a directory as this library keeps one: it has finitely many
/// departments, and the list of each is sorted and not empty.
pub open spec fn is_directory(m: Directory) -> bool {
    &&& m.dom().finite()
    &&& forall|d: Seq<char>| #[trigger]
        m.dom().contains(d) ==> m[d].len() > 0 && sorted_by(m[d], name_order())
}

/// The list of `department`: empty where nobody was added to it.
pub open spec fn listing(m: Directory, department: Seq<char>) -> Seq<Seq<char>> {
    if m.dom().contains(department) {
        m[department]
    } else {
        Seq::empty()
    }
}

/// The directory after `name` was added to `department`: the name joins the
/// list of that department, which is sorted again. A name that is on the list
/// already is on it once more.
pub open spec fn with_person(m: Directory, department: Seq<char>, name: Seq<char>) -> Directory {
    m.insert(department, listing(m, department).push(name).sort_by(name_order()))
}

/// Everybody in the company: each name as often as the lists of all
/// departments together hold it.
pub open spec fn roster(m: Directory) -> Multiset<Seq<char>>
    decreases m.dom().len(),
    when m.dom().finite()
{
    if m.dom().len() == 0 {
        Multiset::empty()
    } else {
        let d = m.dom().choose();
        m[d].to_multiset().add(roster(m.remove(d)))
    }
}

/// The roster is the list of any one department together with the roster of
/// the other departments.
pub proof fn lemma_roster_split(m: Directory, department: Seq<char>)
    requires
        m.dom().finite(),
        m.dom().contains(department),
    ensures
        roster(m) == m[department].to_multiset().add(roster(m.remove(department))),
    decreases m.dom().len(),
{
    let chosen = m.dom().choose();
    if chosen != department {
        lemma_roster_split(m.remove(chosen), department);
        lemma_roster_split(m.remove(department), chosen);
        assert(m.remove(chosen).remove(department) =~= m.remove(department).remove(chosen));
        let others = roster(m.remove(chosen).remove(department));
        assert(m[chosen].to_multiset().add(m[department].to_multiset().add(others))
            =~= m[department].to_multiset().add(m[chosen].to_multiset().add(others)));
    }
}

/// A directory without departments has nobody on its roster.
pub proof fn lemma_roster_of_empty()
    ensures
        roster(Map::<Seq<char>, Seq<Seq<char>>>::empty()) == Multiset::<Seq<char>>::empty(),
        is_directory(Map::<Seq<char>, Seq<Seq<char>>>::empty()),
{
}

/// There is one sorted list of everybody: two sorted lists that both hold
/// the roster, each name as often as the roster does, are the same list.
pub proof fn lemma_one_company_list(m: Directory, a: Seq<Seq<char>>, b: Seq<Seq<char>>)
    requires
        sorted_by(a, name_order()),
        sorted_by(b, name_order()),
        a.to_multiset() == roster(m),
        b.to_multiset() == roster(m),
    ensures
        a == b,
{
    lemma_name_order_total();
    lemma_sorted_unique(a, b, name_order());
}

/// Adding a name puts it on the roster exactly once more, and changes
/// nothing else of the roster.
pub proof fn lemma_roster_after_add(m: Directory, department: Seq<char>, name: Seq<char>)
    requires
        m.dom().finite(),
    ensures
        roster(with_person(m, department, name)) == roster(m).insert(name),
{
    broadcast use group_to_multiset_ensures;

    let after = with_person(m, department, name);
    let before = listing(m, department);
    lemma_name_order_total();
    before.push(name).lemma_sort_by_ensures(name_order());
    lemma_roster_split(after, department);
    assert(after.remove(department) =~= m.remove(department));
    let others = roster(m.remove(department));
    if m.dom().contains(department) {
        lemma_roster_split(m, department);
    } else {
        assert(m.remove(department) =~= m);
        assert(before.to_multiset() =~= Multiset::empty()) by {
            assert forall|a: Seq<char>| before.to_multiset().count(a) == 0 by {
                to_multiset_contains(before, a);
            }
        }
    }
    assert(before.to_multiset().insert(name).add(others) =~= before.to_multiset().add(
        others,
    ).insert(name));
}

/// Adding a name keeps a directory a directory, and leaves the name on the
/// sorted list of its department once more than before. The lists of the
/// other departments stay as they are.
pub proof fn lemma_listing_after_add(m: Directory, department: Seq<char>, name: Seq<char>)
    requires
        is_directory(m),
    ensures
        is_directory(with_person(m, department, name)),
        sorted_by(with_person(m, department, name)[department], name_order()),
        with_person(m, department, name)[department].to_multiset() == listing(
            m,
            department,
        ).to_multiset().insert(name),
        with_person(m, department, name)[department].contains(name),
        forall|other: Seq<char>|
            other != department ==> listing(with_person(m, department, name), other) == listing(
                m,
                other,
            ),
{
    broadcast use group_to_multiset_ensures;

    let joined = listing(m, department).push(name);
    lemma_name_order_total();
    joined.lemma_sort_by_ensures(name_order());
    let sorted = joined.sort_by(name_order());
    assert(sorted.to_multiset().count(name) > 0);
    to_multiset_len(sorted);
    to_multiset_len(joined);
}

/// The order in which two names are added does not matter, whether they go
/// to one department or to two.
pub proof fn lemma_add_commutes(
    m: Directory,
    department_a: Seq<char>,
    name_a: Seq<char>,
    department_b: Seq<char>,
    name_b: Seq<char>,
)
    ensures
        with_person(with_person(m, department_a, name_a), department_b, name_b) == with_person(
            with_person(m, department_b, name_b),
            department_a,
            name_a,
        ),
{
    broadcast use group_to_multiset_ensures;

    let ab = with_person(with_person(m, department_a, name_a), department_b, name_b);
    let ba = with_person(with_person(m, department_b, name_b), department_a, name_a);
    if department_a == department_b {
        let start = listing(m, department_a);
        let a_first = start.push(name_a).sort_by(name_order()).push(name_b);
        let b_first = start.push(name_b).sort_by(name_order()).push(name_a);
        lemma_name_order_total();
        start.push(name_a).lemma_sort_by_ensures(name_order());
        start.push(name_b).lemma_sort_by_ensures(name_order());
        a_first.lemma_sort_by_ensures(name_order());
        b_first.lemma_sort_by_ensures(name_order());
        assert(a_first.to_multiset() =~= start.to_multiset().insert(name_a).insert(name_b));
        assert(b_first.to_multiset() =~= start.to_multiset().insert(name_b).insert(name_a));
        assert(a_first.to_multiset() =~= b_first.to_multiset());
        lemma_sorted_unique(
            a_first.sort_by(name_order()),
            b_first.sort_by(name_order()),
            name_order(),
        );
    }
    assert(ab =~= ba);
}

/// A name that is added twice to a department is on its list twice more
/// than before: nothing is dropped as a duplicate.
pub proof fn lemma_added_twice(m: Directory, department: Seq<char>, name: Seq<char>)
    ensures
        ({
            let twice = with_person(with_person(m, department, name), department, name);
            let before = listing(m, department).to_multiset();
            &&& twice[department].to_multiset() == before.insert(name).insert(name)
            &&& twice[department].to_multiset().count(name) == before.count(name) + 2
        }),
{
    broadcast use group_to_multiset_ensures;

    let start = listing(m, department);
    let once = start.push(name).sort_by(name_order());
    lemma_name_order_total();
    start.push(name).lemma_sort_by_ensures(name_order());
    once.push(name).lemma_sort_by_ensures(name_order());
    assert(once.push(name).to_multiset() =~= start.to_multiset().insert(name).insert(name));
}

} // verus!
