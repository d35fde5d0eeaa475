//! Sorting entries into the order of [`crate::order`], by merging.

use vstd::prelude::*;
use vstd::relations::{sorted_by, total_ordering};
use vstd::seq_lib::{lemma_multiset_commutative, lemma_sorted_unique};
use crate::field::{entries_view, Entry, EntryView};
use crate::order::{entry_leq, entry_order, entry_rank, lemma_entry_total, rank_entry, Rank};

verus! {

/// No entry of `s` comes after a later one.
pub open spec fn ascending(s: Seq<EntryView>) -> bool {
    sorted_by(s, entry_leq())
}

/// No entry of `s` comes before a later one.
pub open spec fn descending(s: Seq<EntryView>) -> bool {
    forall|i: int, j: int| 0 <= i < j < s.len() ==> #[trigger] entry_leq()(s[j], s[i])
}

/// No entry of `low` comes after one of `high`.
pub open spec fn all_leq(low: Seq<EntryView>, high: Seq<EntryView>) -> bool {
    forall|i: int, j: int|
        0 <= i < low.len() && 0 <= j < high.len() ==> #[trigger] entry_leq()(low[i], high[j])
}

/// The views of a list with one more entry.
proof fn lemma_pushed(before: Seq<Entry>, after: Seq<Entry>, x: Entry)
    requires
        after == before.push(x),
    ensures
        entries_view(after) == entries_view(before).push(x@),
        entries_view(after).to_multiset() == entries_view(before).to_multiset().insert(x@),
{
    broadcast use vstd::seq_lib::group_to_multiset_ensures;

    assert(entries_view(after) =~= entries_view(before).push(x@));
}

/// Takes the last entry off a list that is not empty.
fn take_last(list: &mut Vec<Entry>) -> (x: Entry)
    requires
        old(list).len() > 0,
    ensures
        final(list)@ == old(list)@.drop_last(),
        x == old(list)@.last(),
        entries_view(old(list)@) == entries_view(final(list)@).push(x@),
        entries_view(old(list)@).to_multiset() == entries_view(final(list)@).to_multiset().insert(
            x@,
        ),
{
    let ghost before = list@;
    let x = list.pop().unwrap();
    proof {
        assert(before =~= list@.push(x));
        lemma_pushed(list@, before, x);
    }
    x
}

/// Merges two ascending lists into one.
fn merge(a: Vec<Entry>, b: Vec<Entry>) -> (out: Vec<Entry>)
    requires
        ascending(entries_view(a@)),
        ascending(entries_view(b@)),
    ensures
        ascending(entries_view(out@)),
        entries_view(out@).to_multiset() == entries_view(a@).to_multiset().add(
            entries_view(b@).to_multiset(),
        ),
{
    broadcast use vstd::multiset::group_multiset_axioms;

    let ghost all = entries_view(a@).to_multiset().add(entries_view(b@).to_multiset());
    let mut a = a;
    let mut b = b;
    let mut rev: Vec<Entry> = Vec::new();
    proof {
        lemma_entry_total();
        assert(entries_view(rev@).to_multiset() =~= vstd::multiset::Multiset::empty()) by {
            broadcast use vstd::seq_lib::group_to_multiset_ensures;

            assert(entries_view(rev@) =~= Seq::empty());
        }
    }
    while a.len() > 0 || b.len() > 0
        invariant
            total_ordering(entry_leq()),
            ascending(entries_view(a@)),
            ascending(entries_view(b@)),
            descending(entries_view(rev@)),
            all_leq(entries_view(a@), entries_view(rev@)),
            all_leq(entries_view(b@), entries_view(rev@)),
            entries_view(a@).to_multiset().add(entries_view(b@).to_multiset()).add(
                entries_view(rev@).to_multiset(),
            ) == all,
        decreases a.len() + b.len(),
    {
        let ghost av = entries_view(a@);
        let ghost bv = entries_view(b@);
        let ghost rv = entries_view(rev@);
        let ghost rev_before = rev@;
        let from_a = if a.len() == 0 {
            false
        } else if b.len() == 0 {
            true
        } else {
            match rank_entry(&a[a.len() - 1], &b[b.len() - 1]) {
                Rank::After => true,
                _ => false,
            }
        };
        let x = if from_a {
            take_last(&mut a)
        } else {
            take_last(&mut b)
        };
        rev.push(x);
        proof {
            let leq = entry_leq();
            lemma_pushed(rev_before, rev@, x);
            let an = entries_view(a@);
            let bn = entries_view(b@);
            let rn = entries_view(rev@);
            assert(rn == rv.push(x@));
            assert(leq(x@, x@));
            if from_a {
                assert(av == an.push(x@));
                assert(bn == bv);
                assert forall|j: int| 0 <= j < an.len() implies leq(#[trigger] an[j], x@) by {
                    assert(leq(av[j], av[av.len() - 1]));
                }
                assert forall|j: int| 0 <= j < bn.len() implies leq(#[trigger] bn[j], x@) by {
                    let last = bv[bv.len() - 1];
                    assert(entry_rank(x@, last) == Rank::After);
                    assert(entry_order()(x@, last) == entry_order()(last, x@).flip()) by {
                        lemma_entry_total();
                    }
                    assert(leq(last, x@));
                    if j < bv.len() - 1 {
                        assert(leq(bv[j], bv[bv.len() - 1]));
                    }
                }
                assert forall|i: int| 0 <= i < rv.len() implies leq(x@, #[trigger] rv[i]) by {
                    assert(leq(av[av.len() - 1], rv[i]));
                }
            } else {
                assert(bv == bn.push(x@));
                assert(an == av);
                assert forall|j: int| 0 <= j < bn.len() implies leq(#[trigger] bn[j], x@) by {
                    assert(leq(bv[j], bv[bv.len() - 1]));
                }
                assert forall|j: int| 0 <= j < an.len() implies leq(#[trigger] an[j], x@) by {
                    let last = av[av.len() - 1];
                    assert(leq(last, x@));
                    if j < av.len() - 1 {
                        assert(leq(av[j], av[av.len() - 1]));
                    }
                }
                assert forall|i: int| 0 <= i < rv.len() implies leq(x@, #[trigger] rv[i]) by {
                    assert(leq(bv[bv.len() - 1], rv[i]));
                }
            }
            assert(ascending(an)) by {
                assert forall|i: int, j: int| 0 <= i < j < an.len() implies #[trigger] leq(
                    an[i],
                    an[j],
                ) by {
                    assert(leq(av[i], av[j]));
                }
            }
            assert(ascending(bn)) by {
                assert forall|i: int, j: int| 0 <= i < j < bn.len() implies #[trigger] leq(
                    bn[i],
                    bn[j],
                ) by {
                    assert(leq(bv[i], bv[j]));
                }
            }
            assert(descending(rn)) by {
                assert forall|i: int, j: int| 0 <= i < j < rn.len() implies #[trigger] leq(
                    rn[j],
                    rn[i],
                ) by {
                    if j < rv.len() {
                        assert(leq(rv[j], rv[i]));
                    }
                }
            }
            assert(all_leq(an, rn)) by {
                assert forall|i: int, j: int|
                    0 <= i < an.len() && 0 <= j < rn.len() implies #[trigger] leq(
                    an[i],
                    rn[j],
                ) by {
                    if j < rv.len() {
                        assert(leq(av[i], rv[j]));
                    }
                }
            }
            assert(all_leq(bn, rn)) by {
                assert forall|i: int, j: int|
                    0 <= i < bn.len() && 0 <= j < rn.len() implies #[trigger] leq(
                    bn[i],
                    rn[j],
                ) by {
                    if j < rv.len() {
                        assert(leq(bv[i], rv[j]));
                    }
                }
            }
            assert(an.to_multiset().add(bn.to_multiset()).add(rn.to_multiset()) =~= all);
        }
    }
    let mut out: Vec<Entry> = Vec::new();
    proof {
        broadcast use vstd::seq_lib::group_to_multiset_ensures;

        assert(entries_view(a@) =~= Seq::empty());
        assert(entries_view(b@) =~= Seq::empty());
        assert(entries_view(out@) =~= Seq::empty());
        assert(entries_view(out@).to_multiset().add(entries_view(rev@).to_multiset()) =~= all);
    }
    while rev.len() > 0
        invariant
            total_ordering(entry_leq()),
            ascending(entries_view(out@)),
            descending(entries_view(rev@)),
            all_leq(entries_view(out@), entries_view(rev@)),
            entries_view(out@).to_multiset().add(entries_view(rev@).to_multiset()) == all,
        decreases rev.len(),
    {
        let ghost ov = entries_view(out@);
        let ghost rv = entries_view(rev@);
        let ghost out_before = out@;
        let x = take_last(&mut rev);
        out.push(x);
        proof {
            let leq = entry_leq();
            lemma_pushed(out_before, out@, x);
            let on = entries_view(out@);
            let rn = entries_view(rev@);
            assert(rv == rn.push(x@));
            assert(on == ov.push(x@));
            assert(ascending(on)) by {
                assert forall|i: int, j: int| 0 <= i < j < on.len() implies #[trigger] leq(
                    on[i],
                    on[j],
                ) by {
                    if j < ov.len() {
                        assert(leq(ov[i], ov[j]));
                    } else {
                        assert(leq(ov[i], rv[rv.len() - 1]));
                    }
                }
            }
            assert(descending(rn)) by {
                assert forall|i: int, j: int| 0 <= i < j < rn.len() implies #[trigger] leq(
                    rn[j],
                    rn[i],
                ) by {
                    assert(leq(rv[j], rv[i]));
                }
            }
            assert(all_leq(on, rn)) by {
                assert forall|i: int, j: int|
                    0 <= i < on.len() && 0 <= j < rn.len() implies #[trigger] leq(
                    on[i],
                    rn[j],
                ) by {
                    if i < ov.len() {
                        assert(leq(ov[i], rv[j]));
                    } else {
                        assert(leq(rv[rv.len() - 1], rv[j]));
                    }
                }
            }
            assert(on.to_multiset().add(rn.to_multiset()) =~= all);
        }
    }
    proof {
        broadcast use vstd::seq_lib::group_to_multiset_ensures;

        assert(entries_view(rev@) =~= Seq::empty());
        assert(entries_view(out@).to_multiset() =~= all);
    }
    out
}

/// Sorts by halving the list, sorting the halves, and merging them.
fn merge_sort(entries: Vec<Entry>) -> (out: Vec<Entry>)
    ensures
        ascending(entries_view(out@)),
        entries_view(out@).to_multiset() == entries_view(entries@).to_multiset(),
    decreases entries.len(),
{
    if entries.len() <= 1 {
        return entries;
    }
    let ghost whole = entries_view(entries@);
    let mut left = entries;
    let half = left.len() / 2;
    let right = left.split_off(half);
    proof {
        assert(whole =~= entries_view(left@) + entries_view(right@));
        lemma_multiset_commutative(entries_view(left@), entries_view(right@));
    }
    let left = merge_sort(left);
    let right = merge_sort(right);
    merge(left, right)
}

/// The entries in ascending order.
pub open spec fn sorted_entries(entries: Seq<EntryView>) -> Seq<EntryView> {
    entries.sort_by(entry_leq())
}

/// Puts the entries in ascending order: by the bytes of the headword, then by
/// field, then by line.
pub fn sort_entries(entries: Vec<Entry>) -> (out: Vec<Entry>)
    ensures
        entries_view(out@) == sorted_entries(entries_view(entries@)),
        ascending(entries_view(out@)),
{
    let ghost before = entries_view(entries@);
    let out = merge_sort(entries);
    proof {
        lemma_entry_total();
        before.lemma_sort_by_ensures(entry_leq());
        lemma_sorted_unique(entries_view(out@), sorted_entries(before), entry_leq());
    }
    out
}

} // verus!
