//! Edit distance between texts.

use vstd::prelude::*;

verus! {

/// The least of three numbers.
pub open spec fn min3(a: nat, b: nat, c: nat) -> nat {
    if a <= b && a <= c {
        a
    } else if b <= c {
        b
    } else {
        c
    }
}

/// The least number of characters to insert, delete or replace so that `a`
/// becomes `b`.
pub open spec fn edit_distance(a: Seq<char>, b: Seq<char>) -> nat
    decreases a.len() + b.len(),
{
    if a.len() == 0 {
        b.len()
    } else if b.len() == 0 {
        a.len()
    } else {
        min3(
            edit_distance(a.drop_last(), b) + 1,
            edit_distance(a, b.drop_last()) + 1,
            edit_distance(a.drop_last(), b.drop_last()) + if a.last() == b.last() {
                0nat
            } else {
                1nat
            },
        )
    }
}

/// A text is at distance zero from itself.
pub proof fn lemma_distance_to_self(a: Seq<char>)
    ensures
        edit_distance(a, a) == 0,
    decreases a.len(),
{
    if a.len() > 0 {
        lemma_distance_to_self(a.drop_last());
    }
}

/// Only equal texts are at distance zero.
pub proof fn lemma_distance_zero(a: Seq<char>, b: Seq<char>)
    requires
        edit_distance(a, b) == 0,
    ensures
        a == b,
    decreases a.len() + b.len(),
{
    if a.len() == 0 || b.len() == 0 {
        assert(a =~= b);
    } else {
        lemma_distance_zero(a.drop_last(), b.drop_last());
        assert(a =~= a.drop_last().push(a.last()));
        assert(b =~= b.drop_last().push(b.last()));
    }
}

/// A text is no longer than another and the distance between the two.
pub proof fn lemma_distance_bounds_length(a: Seq<char>, b: Seq<char>)
    ensures
        b.len() <= a.len() + edit_distance(a, b),
    decreases a.len() + b.len(),
{
    if a.len() > 0 && b.len() > 0 {
        lemma_distance_bounds_length(a.drop_last(), b);
        lemma_distance_bounds_length(a, b.drop_last());
        lemma_distance_bounds_length(a.drop_last(), b.drop_last());
    }
}

/// The distance between the first `i` characters of `a` and the first `j` of
/// `b`.
pub open spec fn distance_at(a: Seq<char>, b: Seq<char>, i: int, j: int) -> nat {
    edit_distance(a.take(i), b.take(j))
}

/// A distance, as far as it matters below `cap`.
pub open spec fn capped(distance: nat, cap: nat) -> nat {
    if distance <= cap {
        distance
    } else {
        cap
    }
}

/// What a replacement costs: nothing where the characters are the same.
pub open spec fn cost(x: char, y: char) -> nat {
    if x == y {
        0
    } else {
        1
    }
}

/// The distance between two beginnings, from the distances between shorter
/// ones.
proof fn lemma_distance_step(a: Seq<char>, b: Seq<char>, i: int, j: int)
    requires
        0 <= i <= a.len(),
        0 <= j <= b.len(),
    ensures
        i == 0 ==> distance_at(a, b, i, j) == j,
        j == 0 ==> distance_at(a, b, i, j) == i,
        i > 0 && j > 0 ==> distance_at(a, b, i, j) == min3(
            distance_at(a, b, i - 1, j) + 1,
            distance_at(a, b, i, j - 1) + 1,
            distance_at(a, b, i - 1, j - 1) + cost(a[i - 1], b[j - 1]),
        ),
{
    if i > 0 && j > 0 {
        assert(a.take(i).drop_last() =~= a.take(i - 1));
        assert(b.take(j).drop_last() =~= b.take(j - 1));
        assert(a.take(i).last() == a[i - 1]);
        assert(b.take(j).last() == b[j - 1]);
    }
}

/// The first row of the table of distances, capped: the distances from the
/// empty text.
fn first_row(a: &Vec<char>, b: &Vec<char>, cap: u64) -> (row: Vec<u64>)
    ensures
        row@.len() == b@.len() + 1,
        forall|j: int|
            0 <= j <= b@.len() ==> #[trigger] row@[j] == capped(distance_at(a@, b@, 0, j), cap as nat),
{
    let mut row: Vec<u64> = Vec::new();
    row.push(0);
    proof {
        lemma_distance_step(a@, b@, 0, 0);
    }
    let mut j: usize = 0;
    while j < b.len()
        invariant
            j <= b.len(),
            row@.len() == j + 1,
            forall|k: int|
                0 <= k <= j ==> #[trigger] row@[k] == capped(distance_at(a@, b@, 0, k), cap as nat),
        decreases b.len() - j,
    {
        let next = j as u64 + 1;
        proof {
            lemma_distance_step(a@, b@, 0, j + 1);
        }
        row.push(if next <= cap {
            next
        } else {
            cap
        });
        j += 1;
    }
    row
}

/// The next row of the table of distances, capped, from the row before it.
fn next_row(a: &Vec<char>, b: &Vec<char>, i: usize, before: &Vec<u64>, cap: u64) -> (row: Vec<u64>)
    requires
        0 < i <= a@.len(),
        cap <= u32::MAX + 1,
        before@.len() == b@.len() + 1,
        forall|j: int|
            0 <= j <= b@.len() ==> #[trigger] before@[j] == capped(
                distance_at(a@, b@, i - 1, j),
                cap as nat,
            ),
    ensures
        row@.len() == b@.len() + 1,
        forall|j: int|
            0 <= j <= b@.len() ==> #[trigger] row@[j] == capped(
                distance_at(a@, b@, i as int, j),
                cap as nat,
            ),
{
    let mut row: Vec<u64> = Vec::new();
    let first = i as u64;
    proof {
        lemma_distance_step(a@, b@, i as int, 0);
    }
    row.push(if first <= cap {
        first
    } else {
        cap
    });
    let mut j: usize = 0;
    while j < b.len()
        invariant
            j <= b.len(),
            0 < i <= a@.len(),
            cap <= u32::MAX + 1,
            before@.len() == b@.len() + 1,
            forall|k: int|
                0 <= k <= b@.len() ==> #[trigger] before@[k] == capped(
                    distance_at(a@, b@, i - 1, k),
                    cap as nat,
                ),
            row@.len() == j + 1,
            forall|k: int|
                0 <= k <= j ==> #[trigger] row@[k] == capped(
                    distance_at(a@, b@, i as int, k),
                    cap as nat,
                ),
        decreases b.len() - j,
    {
        let replace: u64 = if a[i - 1] == b[j] {
            0
        } else {
            1
        };
        let x = before[j + 1] + 1;
        let y = row[j] + 1;
        let z = before[j] + replace;
        let least = if x <= y && x <= z {
            x
        } else if y <= z {
            y
        } else {
            z
        };
        proof {
            lemma_distance_step(a@, b@, i as int, j + 1);
            assert(before@[j + 1] == capped(distance_at(a@, b@, i - 1, j + 1), cap as nat));
            assert(before@[j as int] == capped(distance_at(a@, b@, i - 1, j as int), cap as nat));
            assert(row@[j as int] == capped(distance_at(a@, b@, i as int, j as int), cap as nat));
        }
        row.push(if least <= cap {
            least
        } else {
            cap
        });
        j += 1;
    }
    row
}

/// Whether `b` is at most `budget` edits away from `a`.
pub fn within_budget(a: &Vec<char>, b: &Vec<char>, budget: u32) -> (ok: bool)
    ensures
        ok == (edit_distance(a@, b@) <= budget),
{
    let cap = budget as u64 + 1;
    let mut row = first_row(a, b, cap);
    let mut i: usize = 0;
    while i < a.len()
        invariant
            i <= a.len(),
            cap == budget + 1,
            row@.len() == b@.len() + 1,
            forall|j: int|
                0 <= j <= b@.len() ==> #[trigger] row@[j] == capped(
                    distance_at(a@, b@, i as int, j),
                    cap as nat,
                ),
        decreases a.len() - i,
    {
        i += 1;
        row = next_row(a, b, i, &row, cap);
    }
    proof {
        assert(a@.take(a@.len() as int) =~= a@);
        assert(b@.take(b@.len() as int) =~= b@);
        assert(row@[b@.len() as int] == capped(
            distance_at(a@, b@, a@.len() as int, b@.len() as int),
            cap as nat,
        ));
    }
    row[b.len()] <= budget as u64
}

} // verus!
