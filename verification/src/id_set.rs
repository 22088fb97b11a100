use vstd::prelude::*;
use std::collections::BTreeSet;
use vstd::std_specs::iter::IteratorSpec;

verus! {

broadcast use {vstd::laws_cmp::group_laws_cmp, vstd::std_specs::btree::group_btree_axioms};

/// The ids are in strictly increasing order (so none occurs twice).
pub open spec fn sorted_strict(s: Seq<u64>) -> bool {
    forall|i: int, j: int| 0 <= i < j < s.len() ==> s[i] < s[j]
}

/// `s` lists exactly the members of `m`, in increasing order.
pub open spec fn is_id_set(s: Seq<u64>, m: Set<u64>) -> bool {
    &&& sorted_strict(s)
    &&& forall|x: u64| #[trigger] s.contains(x) <==> m.contains(x)
}

/// A strictly increasing sequence holds no element twice.
pub proof fn lemma_sorted_no_duplicates(s: Seq<u64>)
    requires
        sorted_strict(s),
    ensures
        s.no_duplicates(),
{
    assert forall|i: int, j: int| 0 <= i < s.len() && 0 <= j < s.len() && i != j implies s[i]
        != s[j] by {
        assert(i < j ==> s[i] < s[j]);
        assert(j < i ==> s[j] < s[i]);
    }
}

/// The set that an ordered id list stands for is finite and has as many
/// members as the list has entries.
pub proof fn lemma_id_set_len(s: Seq<u64>, m: Set<u64>)
    requires
        is_id_set(s, m),
    ensures
        m.finite(),
        m.len() == s.len(),
{
    lemma_sorted_no_duplicates(s);
    s.unique_seq_to_set();
    assert(s.to_set() =~= m);
    broadcast use vstd::seq_lib::seq_to_set_is_finite;
}

/// The set of the given ids.
pub fn id_set_from(ids: &Vec<u64>) -> (r: BTreeSet<u64>)
    ensures
        r@ == ids@.to_set(),
{
    let mut r: BTreeSet<u64> = BTreeSet::new();
    let mut i: usize = 0;
    while i < ids.len()
        invariant
            i <= ids.len(),
            r@ == ids@.take(i as int).to_set(),
        decreases ids.len() - i,
    {
        r.insert(ids[i]);
        assert(ids@.take(i + 1) =~= ids@.take(i as int).push(ids@[i as int]));
        proof {
            ids@.take(i as int).lemma_push_to_set_commute(ids@[i as int]);
        }
        i = i + 1;
    }
    assert(ids@.take(ids.len() as int) =~= ids@);
    r
}

/// The members of a set of ids, in increasing order.
pub fn ordered_ids(s: &BTreeSet<u64>) -> (r: Vec<u64>)
    ensures
        is_id_set(r@, s@),
{
    let ghost ks = vstd::std_specs::btree::spec_btree_keys_iter(s).remaining().unref();
    proof {
        vstd::std_specs::btree::axiom_spec_btree_keys_iter(s);
    }
    let mut r: Vec<u64> = Vec::new();
    for x in it: s.iter()
        invariant
            it.seq().unref() == ks,
            r@ == ks.take(it.index() as int),
    {
        r.push(*x);
        assert(ks.take(it.index() as int + 1) =~= ks.take(it.index() as int).push(*x));
    }
    assert(r@ =~= ks);
    proof {
        lemma_increasing_sorted(vstd::std_specs::btree::spec_btree_keys_iter(s).remaining());
    }
    assert forall|x: u64| #[trigger] ks.contains(x) <==> s@.contains(x) by {
        assert(ks.to_set().contains(x) == ks.contains(x));
    }
    r
}

/// The keys of a set's iterator, in the order the iterator yields them, are
/// strictly increasing.
proof fn lemma_increasing_sorted(rs: Seq<&u64>)
    requires
        vstd::std_specs::btree::increasing_seq(rs),
    ensures
        sorted_strict(rs.unref()),
{
    assert forall|i: int, j: int| 0 <= i < j < rs.len() implies rs.unref()[i] < rs.unref()[j] by {
        assert(vstd::std_specs::cmp::OrdSpec::cmp_spec(&rs[i], &rs[j]) is Less);
    }
}

} // verus!
