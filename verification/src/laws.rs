//! Laws of the directory core, stated and proved once over the
//! specification-level mapping: reads are state-determined, adds append
//! without deduplication, and listings are the sorted permutation of
//! what was added, whatever the insertion order.

use vstd::prelude::*;
use crate::directory::{
    Directory, Entry, distinct_keys, keys_of, lemma_map_of_dom, listing_of, map_of, spec_add,
};
use crate::text::{lemma_lex_total_ordering, lex_leq};
use vstd::seq_lib::{group_to_multiset_ensures, lemma_multiset_commutative, lemma_sorted_unique};

verus! {

broadcast use group_to_multiset_ensures, vstd::multiset::group_multiset_axioms;

/// Reads are idempotent: the listing a directory presents is determined
/// by the mapping it denotes, so reading twice without an intervening
/// `Add` — which leaves both the mapping and the listing untouched —
/// yields identical results.
pub proof fn lemma_reads_idempotent(d1: Directory, d2: Directory)
    requires
        d1.wf(),
        d2.wf(),
        d1@ == d2@,
    ensures
        d1.listing() == d2.listing(),
{
    let es1 = d1.entries();
    let es2 = d2.entries();
    let ks1 = keys_of(es1);
    let ks2 = keys_of(es2);
    let sk1 = ks1.sort_by(lex_leq());
    let sk2 = ks2.sort_by(lex_leq());
    lemma_lex_total_ordering();
    ks1.lemma_sort_by_ensures(lex_leq());
    ks2.lemma_sort_by_ensures(lex_leq());
    lemma_keys_no_duplicates(es1);
    lemma_keys_no_duplicates(es2);
    ks1.lemma_multiset_has_no_duplicates();
    ks2.lemma_multiset_has_no_duplicates();
    assert(ks1.to_multiset() =~= ks2.to_multiset()) by {
        assert forall|k: Seq<char>| true implies ks1.to_multiset().count(k)
            == ks2.to_multiset().count(k) by {
            lemma_map_of_dom(es1, k);
            lemma_map_of_dom(es2, k);
            lemma_key_count(es1, k);
            lemma_key_count(es2, k);
        }
    }
    lemma_sorted_unique(sk1, sk2, lex_leq());
    assert(listing_of(es1) =~= listing_of(es2));
}

/// A key occurs in a table's key sequence exactly when the denoted
/// mapping has it, and a well-formed table repeats no key.
proof fn lemma_key_count(es: Seq<Entry>, k: Seq<char>)
    requires
        distinct_keys(es),
    ensures
        map_of(es).dom().contains(k) ==> keys_of(es).to_multiset().count(k) == 1,
        !map_of(es).dom().contains(k) ==> keys_of(es).to_multiset().count(k) == 0,
{
    let ks = keys_of(es);
    lemma_keys_no_duplicates(es);
    ks.lemma_multiset_has_no_duplicates();
    lemma_map_of_dom(es, k);
    if map_of(es).dom().contains(k) {
        let i = choose|i: int| 0 <= i < es.len() && (#[trigger] es[i]).0 == k;
        assert(ks[i] == k);
        assert(ks.contains(k));
    } else {
        if ks.contains(k) {
            let i = choose|i: int| 0 <= i < ks.len() && ks[i] == k;
            assert(es[i].0 == k);
        }
        assert(!ks.contains(k));
    }
}

/// A well-formed table's key sequence has no duplicates.
proof fn lemma_keys_no_duplicates(es: Seq<Entry>)
    requires
        distinct_keys(es),
    ensures
        keys_of(es).no_duplicates(),
{
    assert(forall|p: int, q: int|
        0 <= p < q < es.len() ==> #[trigger] keys_of(es)[p] != #[trigger] keys_of(es)[q]);
}

/// Adds append and never deduplicate: issuing the same `Add` twice
/// leaves the department holding what it held followed by two copies of
/// the name, every other department untouched, and the department's
/// sorted listing counting the name at least twice.
pub proof fn lemma_append_only_no_dedup(
    m: Map<Seq<char>, Seq<Seq<char>>>,
    name: Seq<char>,
    department: Seq<char>,
)
    ensures
        spec_add(spec_add(m, name, department), name, department)[department] == (if m.dom()
            .contains(department) {
            m[department]
        } else {
            Seq::<Seq<char>>::empty()
        }).push(name).push(name),
        forall|k: Seq<char>|
            k != department && m.dom().contains(k) ==> spec_add(
                spec_add(m, name, department),
                name,
                department,
            )[k] == m[k],
        spec_add(spec_add(m, name, department), name, department)[department].sort_by(
            lex_leq(),
        ).to_multiset().count(name) >= 2,
{
    let base = if m.dom().contains(department) {
        m[department]
    } else {
        Seq::<Seq<char>>::empty()
    };
    assert(spec_add(m, name, department)[department] == base.push(name)) by {
        if !m.dom().contains(department) {
            assert(seq![name] =~= Seq::<Seq<char>>::empty().push(name));
        }
    }
    let twice = spec_add(spec_add(m, name, department), name, department)[department];
    assert(twice == base.push(name).push(name));
    lemma_lex_total_ordering();
    twice.lemma_sort_by_ensures(lex_leq());
    assert(twice.to_multiset().count(name) >= 2) by {
        assert(base.push(name).to_multiset() =~= base.to_multiset().insert(name));
        assert(twice.to_multiset() =~= base.push(name).to_multiset().insert(name));
    }
}

/// The mapping after a run of `Add` commands that put `names`, in
/// order, into one department.
pub open spec fn add_all(
    m: Map<Seq<char>, Seq<Seq<char>>>,
    department: Seq<char>,
    names: Seq<Seq<char>>,
) -> Map<Seq<char>, Seq<Seq<char>>>
    decreases names.len(),
{
    if names.len() == 0 {
        m
    } else {
        spec_add(add_all(m, department, names.drop_last()), names.last(), department)
    }
}

/// Sort correctness: after any run of `Add`s into one department, that
/// department holds exactly the names added, in order, after whatever
/// it held before — so its listing is their sorted permutation,
/// whatever the insertion order was.
pub proof fn lemma_sort_correctness(
    m: Map<Seq<char>, Seq<Seq<char>>>,
    department: Seq<char>,
    names: Seq<Seq<char>>,
)
    ensures
        add_all(m, department, names).dom().contains(department) <==> (m.dom().contains(
            department,
        ) || names.len() > 0),
        (m.dom().contains(department) || names.len() > 0) ==> add_all(m, department, names)[
            department
        ] == (if m.dom().contains(department) {
            m[department]
        } else {
            Seq::<Seq<char>>::empty()
        }) + names,
        forall|k: Seq<char>|
            k != department ==> (#[trigger] add_all(m, department, names).dom().contains(k)
                <==> m.dom().contains(k)),
        forall|k: Seq<char>|
            k != department && m.dom().contains(k) ==> #[trigger] add_all(m, department, names)[
                k
            ] == m[k],
    decreases names.len(),
{
    let base = if m.dom().contains(department) {
        m[department]
    } else {
        Seq::<Seq<char>>::empty()
    };
    if names.len() == 0 {
        if m.dom().contains(department) {
            assert(base + names =~= base);
        }
    } else {
        lemma_sort_correctness(m, department, names.drop_last());
        if m.dom().contains(department) || names.len() > 1 {
            assert((base + names.drop_last()).push(names.last()) =~= base + names);
        } else {
            assert(seq![names.last()] =~= base + names);
        }
    }
}

/// The order of `Add`s does not matter to a listing: two runs that add
/// the same names into a department, in any orders, leave it presenting
/// the same sorted employee list.
pub proof fn lemma_order_insensitive(
    m: Map<Seq<char>, Seq<Seq<char>>>,
    department: Seq<char>,
    names1: Seq<Seq<char>>,
    names2: Seq<Seq<char>>,
)
    requires
        names1.to_multiset() == names2.to_multiset(),
    ensures
        add_all(m, department, names1)[department].sort_by(lex_leq()) == add_all(
            m,
            department,
            names2,
        )[department].sort_by(lex_leq()),
{
    lemma_lex_total_ordering();
    vstd::seq_lib::to_multiset_len(names1);
    vstd::seq_lib::to_multiset_len(names2);
    assert(names1.len() == names2.len());
    if names1.len() == 0 {
    } else {
        lemma_sort_correctness(m, department, names1);
        lemma_sort_correctness(m, department, names2);
        let base = if m.dom().contains(department) {
            m[department]
        } else {
            Seq::<Seq<char>>::empty()
        };
        let s1 = add_all(m, department, names1)[department];
        let s2 = add_all(m, department, names2)[department];
        lemma_multiset_commutative(base, names1);
        lemma_multiset_commutative(base, names2);
        s1.lemma_sort_by_ensures(lex_leq());
        s2.lemma_sort_by_ensures(lex_leq());
        lemma_sorted_unique(s1.sort_by(lex_leq()), s2.sort_by(lex_leq()), lex_leq());
    }
}

} // verus!
