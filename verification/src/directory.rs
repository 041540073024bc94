//! The directory store: a mapping from department names to the employees
//! added under them, in insertion order. Listings present employees and
//! departments in lexicographic ascending order without disturbing the
//! stored order.

use vstd::prelude::*;
use crate::text::{lemma_lex_total_ordering, lex_le, lex_leq, sort_strings, str_eq};
use vstd::seq_lib::group_to_multiset_ensures;

verus! {

/// One department table entry: the department's name paired with its
/// employees, in the order they were added.
pub type Entry = (Seq<char>, Seq<Seq<char>>);

/// The keys of a department table, in table order.
pub open spec fn keys_of(es: Seq<Entry>) -> Seq<Seq<char>> {
    es.map_values(|e: Entry| e.0)
}

/// No two table entries share a department name.
pub open spec fn distinct_keys(es: Seq<Entry>) -> bool {
    forall|p: int, q: int| 0 <= p < q < es.len() ==> (#[trigger] es[p]).0 != (#[trigger] es[q]).0
}

/// The mapping a department table denotes: each name maps to the
/// employee list of its entry.
pub open spec fn map_of(es: Seq<Entry>) -> Map<Seq<char>, Seq<Seq<char>>>
    decreases es.len(),
{
    if es.len() == 0 {
        Map::empty()
    } else {
        map_of(es.drop_last()).insert(es.last().0, es.last().1)
    }
}

/// A name is in the mapping's domain exactly when some entry carries it.
pub proof fn lemma_map_of_dom(es: Seq<Entry>, k: Seq<char>)
    ensures
        map_of(es).dom().contains(k) <==> exists|i: int|
            0 <= i < es.len() && (#[trigger] es[i]).0 == k,
    decreases es.len(),
{
    if es.len() > 0 {
        lemma_map_of_dom(es.drop_last(), k);
        if map_of(es).dom().contains(k) && es.last().0 != k {
            let i = choose|i: int| 0 <= i < es.drop_last().len() && (#[trigger] es.drop_last()[
                i
            ]).0 == k;
            assert(es[i].0 == k);
        }
        if exists|i: int| 0 <= i < es.len() && (#[trigger] es[i]).0 == k {
            let i = choose|i: int| 0 <= i < es.len() && (#[trigger] es[i]).0 == k;
            if i < es.len() - 1 {
                assert(es.drop_last()[i].0 == k);
            }
        }
    }
}

/// With distinct keys, the mapping sends each entry's name to that
/// entry's employee list.
pub proof fn lemma_map_of_index(es: Seq<Entry>, i: int)
    requires
        distinct_keys(es),
        0 <= i < es.len(),
    ensures
        map_of(es).dom().contains(es[i].0),
        map_of(es)[es[i].0] == es[i].1,
    decreases es.len(),
{
    if i < es.len() - 1 {
        assert(distinct_keys(es.drop_last()));
        assert(es.drop_last()[i] == es[i]);
        lemma_map_of_index(es.drop_last(), i);
        assert(es.last().0 != es[i].0);
    }
}

/// Appending an entry with a fresh name extends the mapping at that name.
pub proof fn lemma_map_of_push(es: Seq<Entry>, e: Entry)
    ensures
        map_of(es.push(e)) == map_of(es).insert(e.0, e.1),
{
    assert(es.push(e).drop_last() =~= es);
    assert(es.push(e).last() == e);
}

/// With distinct keys, replacing the employee list of entry `i` updates
/// the mapping at that entry's name alone.
pub proof fn lemma_map_of_update(es: Seq<Entry>, i: int, v: Seq<Seq<char>>)
    requires
        distinct_keys(es),
        0 <= i < es.len(),
    ensures
        map_of(es.update(i, (es[i].0, v))) == map_of(es).insert(es[i].0, v),
    decreases es.len(),
{
    let k = es[i].0;
    let es2 = es.update(i, (k, v));
    if i == es.len() - 1 {
        assert(es2.drop_last() =~= es.drop_last());
        assert(map_of(es2) == map_of(es.drop_last()).insert(k, v));
        assert(map_of(es.drop_last()).insert(k, es.last().1).insert(k, v) =~= map_of(
            es.drop_last(),
        ).insert(k, v));
    } else {
        assert(distinct_keys(es.drop_last()));
        assert(es.drop_last()[i] == es[i]);
        lemma_map_of_update(es.drop_last(), i, v);
        assert(es2.drop_last() =~= es.drop_last().update(i, (k, v)));
        let k2 = es.last().0;
        let w = es.last().1;
        assert(k2 != k);
        assert(es2.last() == es.last());
        assert(map_of(es2) == map_of(es.drop_last()).insert(k, v).insert(k2, w));
        assert(map_of(es.drop_last()).insert(k, v).insert(k2, w) =~= map_of(
            es.drop_last(),
        ).insert(k2, w).insert(k, v));
    }
}

/// The mapping after one `Add`: `name` appended under `department`,
/// with the department created if it was absent. Nothing else changes.
pub open spec fn spec_add(
    m: Map<Seq<char>, Seq<Seq<char>>>,
    name: Seq<char>,
    department: Seq<char>,
) -> Map<Seq<char>, Seq<Seq<char>>> {
    m.insert(
        department,
        if m.dom().contains(department) {
            m[department].push(name)
        } else {
            seq![name]
        },
    )
}

/// Signals that a department asked for is not in the directory.
#[derive(Clone, Copy, PartialEq, Eq, Structural, Debug)]
pub struct NotFound;

/// The directory: department names mapped to the employees added under
/// them. Employees keep their insertion order internally; every listing
/// sorts on the way out.
pub struct Directory {
    table: Vec<(String, Vec<String>)>,
}

impl Directory {
    /// The department table as stored, in insertion order.
    pub closed spec fn entries(self) -> Seq<Entry> {
        self.table.deep_view()
    }

    /// Well-formed: no department name occurs twice in the table.
    pub open spec fn wf(self) -> bool {
        distinct_keys(self.entries())
    }

    /// The mapping this directory denotes.
    pub open spec fn view(self) -> Map<Seq<char>, Seq<Seq<char>>> {
        map_of(self.entries())
    }

    /// Creates an empty directory.
    pub fn new() -> (d: Directory)
        ensures
            d.wf(),
            d@ == Map::<Seq<char>, Seq<Seq<char>>>::empty(),
    {
        let d = Directory { table: Vec::new() };
        proof {
            assert(d.entries() =~= Seq::<Entry>::empty());
        }
        d
    }

    /// The position of `department`'s entry, if it has one.
    fn find(&self, department: &str) -> (r: Option<usize>)
        ensures
            match r {
                Some(i) => i < self.entries().len() && self.entries()[i as int].0 == department@,
                None => forall|i: int|
                    0 <= i < self.entries().len() ==> (#[trigger] self.entries()[i]).0
                        != department@,
            },
    {
        let n = self.table.len();
        let mut i: usize = 0;
        while i < n
            invariant
                i <= n,
                n == self.entries().len(),
                forall|k: int| 0 <= k < i ==> (#[trigger] self.entries()[k]).0 != department@,
            decreases n - i,
        {
            if str_eq(self.table[i].0.as_str(), department) {
                return Some(i);
            }
            i = i + 1;
        }
        None
    }

    /// Appends `name` to `department`'s employee list, creating the
    /// department if it is absent. Existing entries are never removed
    /// or reordered.
    pub fn add_employee(&mut self, name: &str, department: &str)
        requires
            old(self).wf(),
        ensures
            final(self).wf(),
            final(self)@ == spec_add(old(self)@, name@, department@),
    {
        let ghost es0 = self.entries();
        match self.find(department) {
            Some(i) => {
                proof {
                    lemma_map_of_index(es0, i as int);
                    lemma_map_of_dom(es0, department@);
                }
                let (dept_name, mut emps) = self.table.remove(i);
                let ghost emps0 = emps.deep_view();
                emps.push(String::from_str(name));
                proof {
                    assert(emps.deep_view() =~= emps0.push(name@));
                }
                self.table.insert(i, (dept_name, emps));
                proof {
                    assert(self.entries() =~= es0.update(i as int, (es0[i as int].0, emps0.push(
                        name@,
                    ))));
                    lemma_map_of_update(es0, i as int, emps0.push(name@));
                    assert(final(self).wf()) by {
                        assert(forall|p: int|
                            0 <= p < es0.len() ==> (#[trigger] self.entries()[p]).0 == es0[p].0);
                    }
                }
            },
            None => {
                proof {
                    lemma_map_of_dom(es0, department@);
                }
                let mut emps: Vec<String> = Vec::new();
                emps.push(String::from_str(name));
                proof {
                    assert(emps.deep_view() =~= seq![name@]);
                }
                self.table.push((String::from_str(department), emps));
                proof {
                    assert(self.entries() =~= es0.push((department@, seq![name@])));
                    lemma_map_of_push(es0, (department@, seq![name@]));
                    assert(final(self).wf()) by {
                        assert(forall|p: int|
                            0 <= p < es0.len() ==> (#[trigger] self.entries()[p]).0 == es0[p].0);
                        assert(self.entries()[es0.len() as int].0 == department@);
                    }
                }
            },
        }
    }

    /// Returns a new, lexicographically sorted copy of `department`'s
    /// employee list, or [`NotFound`] if the department is absent. The
    /// directory itself is untouched.
    pub fn list_department(&self, department: &str) -> (r: Result<Vec<String>, NotFound>)
        requires
            self.wf(),
        ensures
            match r {
                Ok(v) => self@.dom().contains(department@) && v.deep_view() == self@[
                    department@
                ].sort_by(lex_leq()),
                Err(_) => !self@.dom().contains(department@),
            },
    {
        proof {
            lemma_map_of_dom(self.entries(), department@);
        }
        match self.find(department) {
            Some(i) => {
                proof {
                    lemma_map_of_index(self.entries(), i as int);
                }
                let mut emps = self.table[i].1.clone();
                sort_strings(&mut emps);
                Ok(emps)
            },
            None => Err(NotFound),
        }
    }

    /// The full listing this directory presents: all departments in
    /// lexicographic ascending order, each paired with its employees in
    /// lexicographic ascending order.
    pub open spec fn listing(self) -> Seq<Entry> {
        listing_of(self.entries())
    }

    /// What [`Directory::listing`] looks like through the directory's
    /// mapping: every listed department is a key with its sorted
    /// employee list, department names ascend strictly, and every key
    /// is listed.
    pub proof fn lemma_listing(self)
        requires
            self.wf(),
        ensures
            forall|i: int|
                0 <= i < self.listing().len() ==> self@.dom().contains(
                    (#[trigger] self.listing()[i]).0,
                ) && self.listing()[i].1 == self@[self.listing()[i].0].sort_by(lex_leq()),
            forall|i: int, j: int|
                0 <= i < j < self.listing().len() ==> lex_le(
                    (#[trigger] self.listing()[i]).0,
                    (#[trigger] self.listing()[j]).0,
                ) && self.listing()[i].0 != self.listing()[j].0,
            forall|k: Seq<char>|
                #[trigger] self@.dom().contains(k) ==> exists|i: int|
                    0 <= i < self.listing().len() && (#[trigger] self.listing()[i]).0 == k,
    {
        broadcast use group_to_multiset_ensures;

        let es = self.entries();
        let ks = keys_of(es);
        let sk = ks.sort_by(lex_leq());
        lemma_lex_total_ordering();
        ks.lemma_sort_by_ensures(lex_leq());
        assert(ks.no_duplicates()) by {
            assert(forall|p: int, q: int|
                0 <= p < q < es.len() ==> #[trigger] ks[p] != #[trigger] ks[q]);
        }
        ks.lemma_multiset_has_no_duplicates();
        sk.lemma_multiset_has_no_duplicates_conv();
        assert forall|i: int| 0 <= i < self.listing().len() implies self@.dom().contains(
            (#[trigger] self.listing()[i]).0,
        ) && self.listing()[i].1 == self@[self.listing()[i].0].sort_by(lex_leq()) by {
            assert(self.listing()[i].0 == sk[i]);
            assert(sk.contains(sk[i]));
            assert(ks.contains(sk[i]));
            let t = choose|t: int| 0 <= t < ks.len() && ks[t] == sk[i];
            assert(es[t].0 == sk[i]);
            lemma_map_of_dom(es, sk[i]);
        }
        assert forall|i: int, j: int| 0 <= i < j < self.listing().len() implies lex_le(
            (#[trigger] self.listing()[i]).0,
            (#[trigger] self.listing()[j]).0,
        ) && self.listing()[i].0 != self.listing()[j].0 by {
            assert(lex_leq()(sk[i], sk[j]));
        }
        assert forall|k: Seq<char>| #[trigger] self@.dom().contains(k) implies exists|i: int|
            0 <= i < self.listing().len() && (#[trigger] self.listing()[i]).0 == k by {
            lemma_map_of_dom(es, k);
            let t = choose|t: int| 0 <= t < es.len() && (#[trigger] es[t]).0 == k;
            assert(ks[t] == k);
            assert(ks.contains(k));
            assert(ks.to_multiset().count(k) > 0);
            assert(sk.to_multiset().count(k) > 0);
            assert(sk.contains(k));
            let i = choose|i: int| 0 <= i < sk.len() && sk[i] == k;
            assert(self.listing()[i].0 == k);
        }
    }

    /// Returns every department paired with its employees: departments
    /// in lexicographic ascending order, employees within each sorted
    /// the same way. The directory itself is untouched, and an empty
    /// directory yields an empty listing.
    pub fn list_all(&self) -> (r: Vec<(String, Vec<String>)>)
        requires
            self.wf(),
        ensures
            r.deep_view() == self.listing(),
    {
        broadcast use group_to_multiset_ensures;

        let ghost es = self.entries();
        proof {
            lemma_lex_total_ordering();
        }
        let ghost sk = keys_of(es).sort_by(lex_leq());
        let mut names: Vec<String> = Vec::new();
        let n = self.table.len();
        let mut i: usize = 0;
        while i < n
            invariant
                i <= n,
                n == es.len(),
                es == self.entries(),
                names.deep_view() =~= keys_of(es).subrange(0, i as int),
            decreases n - i,
        {
            let nm = self.table[i].0.clone();
            let ghost prev = names.deep_view();
            names.push(nm);
            proof {
                assert(names.deep_view() =~= prev.push(es[i as int].0));
                assert(names.deep_view() =~= keys_of(es).subrange(0, i as int + 1));
            }
            i = i + 1;
        }
        proof {
            assert(keys_of(es).subrange(0, n as int) =~= keys_of(es));
        }
        sort_strings(&mut names);
        proof {
            keys_of(es).lemma_sort_by_ensures(lex_leq());
            assert forall|t: int| 0 <= t < sk.len() implies self@.dom().contains(
                #[trigger] sk[t],
            ) by {
                assert(sk.contains(sk[t]));
                assert(keys_of(es).contains(sk[t]));
                let u = choose|u: int| 0 <= u < keys_of(es).len() && keys_of(es)[u] == sk[t];
                assert(es[u].0 == sk[t]);
                lemma_map_of_dom(es, sk[t]);
            }
        }
        let mut out: Vec<(String, Vec<String>)> = Vec::new();
        let mut q: usize = 0;
        while q < names.len()
            invariant
                q <= names.len(),
                self.wf(),
                es == self.entries(),
                names.deep_view() == sk,
                sk == keys_of(es).sort_by(lex_leq()),
                forall|t: int| 0 <= t < sk.len() ==> self@.dom().contains(#[trigger] sk[t]),
                out.deep_view() =~= self.listing().subrange(0, q as int),
            decreases names.len() - q,
        {
            let nm = names[q].clone();
            let ghost prev = out.deep_view();
            match self.list_department(nm.as_str()) {
                Ok(emps) => {
                    out.push((nm, emps));
                    proof {
                        assert(out.deep_view() =~= prev.push((sk[q as int], self@[sk[
                            q as int
                        ]].sort_by(lex_leq()))));
                        assert(out.deep_view() =~= self.listing().subrange(0, q as int + 1));
                    }
                },
                Err(_) => {
                    // cannot happen: every sorted name is a key
                },
            }
            q = q + 1;
        }
        proof {
            assert(self.listing().subrange(0, names.len() as int) =~= self.listing());
        }
        out
    }
}

/// The listing a department table presents: its names sorted, each
/// paired with its sorted employee list.
pub open spec fn listing_of(es: Seq<Entry>) -> Seq<Entry> {
    keys_of(es).sort_by(lex_leq()).map_values(
        |k: Seq<char>| (k, map_of(es)[k].sort_by(lex_leq())),
    )
}

} // verus!
