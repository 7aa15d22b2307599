//! Ordering, truncation and totals of the per-author table.

use crate::tally::{AuthorStats, AuthorTally, StatsError, Tally, UserCommitStats};
use vstd::prelude::*;

verus! {

/// The column by which the table is ordered.
#[derive(Clone, Copy, Debug, PartialEq, Eq, Structural)]
pub enum SortBy {
    Commits,
    FilesChanged,
    Insertions,
    Deletions,
    LinesChanged,
}

/// The value by which `stats` is ordered under `by`. For `LinesChanged` it is
/// the sum of insertions and deletions, whatever the `lines_changed` field holds.
pub open spec fn sort_key(stats: UserCommitStats, by: SortBy) -> nat {
    match by {
        SortBy::Commits => stats.commits as nat,
        SortBy::FilesChanged => stats.files_changed as nat,
        SortBy::Insertions => stats.insertions as nat,
        SortBy::Deletions => stats.deletions as nat,
        SortBy::LinesChanged => (stats.insertions + stats.deletions) as nat,
    }
}

/// Computes [`sort_key`]. The result is wide enough for the sum of two `usize`.
pub fn key_of(stats: &UserCommitStats, by: SortBy) -> (key: u128)
    ensures
        key == sort_key(*stats, by),
{
    match by {
        SortBy::Commits => stats.commits as u128,
        SortBy::FilesChanged => stats.files_changed as u128,
        SortBy::Insertions => stats.insertions as u128,
        SortBy::Deletions => stats.deletions as u128,
        SortBy::LinesChanged => stats.insertions as u128 + stats.deletions as u128,
    }
}

/// The sort keys of `entries`, position by position.
pub open spec fn keys_of(entries: Seq<AuthorTally>, by: SortBy) -> Seq<nat> {
    entries.map_values(|e: AuthorTally| sort_key(e.stats, by))
}

/// Whether the entry at input position `a` is listed before the one at `b`:
/// the larger key first, and of two equal keys the later entry first.
pub open spec fn outranks(keys: Seq<nat>, a: int, b: int) -> bool {
    keys[a] > keys[b] || (keys[a] == keys[b] && a > b)
}

/// The first position at or after `from` in `order` whose entry has a key of at
/// most `key`; the length of `order` if there is none.
pub open spec fn slot_from(keys: Seq<nat>, order: Seq<int>, key: nat, from: int) -> int
    decreases order.len() - from,
{
    if from >= order.len() {
        order.len() as int
    } else if keys[order[from]] <= key {
        from
    } else {
        slot_from(keys, order, key, from + 1)
    }
}

/// The input positions of `keys` in the order of the table: each position in
/// turn is put in front of the first one that it outranks.
pub open spec fn ranking(keys: Seq<nat>) -> Seq<int>
    decreases keys.len(),
{
    if keys.len() == 0 {
        Seq::empty()
    } else {
        let before = ranking(keys.drop_last());
        let last = keys.len() - 1;
        before.insert(slot_from(keys, before, keys[last], 0), last)
    }
}

/// Whether `order` lists every position of `keys` once, each before all that it outranks.
pub open spec fn is_ranking(keys: Seq<nat>, order: Seq<int>) -> bool {
    &&& order.len() == keys.len()
    &&& forall|k: int| 0 <= k < order.len() ==> 0 <= #[trigger] order[k] < keys.len()
    &&& forall|a: int, b: int|
        0 <= a < b < order.len() ==> outranks(keys, #[trigger] order[a], #[trigger] order[b])
}

/// The table: `entries` by descending key, cut after `max_count` rows if one is given.
pub open spec fn ranked(entries: Seq<AuthorTally>, by: SortBy, max_count: Option<usize>) -> Seq<
    AuthorTally,
> {
    let order = ranking(keys_of(entries, by));
    let shown = match max_count {
        Some(m) => if m < order.len() {
            order.take(m as int)
        } else {
            order
        },
        None => order,
    };
    shown.map_values(|i: int| entries[i])
}

/// Orders the table by `by`, largest first, and keeps at most `max_count` rows.
/// Of two authors with equal keys the one that stands later in `entries` comes first.
pub fn rank(entries: &Vec<AuthorStats>, by: SortBy, max_count: Option<usize>) -> (table: Vec<
    AuthorStats,
>)
    ensures
        table.deep_view() == ranked(entries.deep_view(), by, max_count),
        table@.len() <= entries@.len(),
        max_count matches Some(m) ==> table@.len() <= m,
        forall|a: int, b: int|
            0 <= a < b < table@.len() ==> sort_key(#[trigger] table@[a].stats, by) >= sort_key(
                #[trigger] table@[b].stats,
                by,
            ),
{
    let ghost model = entries.deep_view();
    let ghost keys = keys_of(model, by);
    let order = rank_positions(entries, by);
    let shown = match max_count {
        Some(m) => if m < order.len() {
            m
        } else {
            order.len()
        },
        None => order.len(),
    };
    proof {
        lemma_ranking_is_ranking(keys);
    }
    let ghost full = ranking(keys);
    let ghost cut = full.take(shown as int);
    assert(ranked(model, by, max_count) == cut.map_values(|i: int| model[i])) by {
        assert(full.take(full.len() as int) =~= full);
    }
    let mut table: Vec<AuthorStats> = Vec::new();
    let mut k: usize = 0;
    while k < shown
        invariant
            k <= shown <= order@.len(),
            order@.len() == entries@.len(),
            model == entries.deep_view(),
            is_ranking(keys, full),
            keys == keys_of(model, by),
            forall|j: int| 0 <= j < order@.len() ==> order@[j] as int == #[trigger] full[j],
            table@.len() == k,
            forall|j: int| 0 <= j < k ==> (#[trigger] table@[j])@ == model[full[j]],
        decreases shown - k,
    {
        assert(0 <= full[k as int] < keys.len());
        table.push(entries[order[k]].clone());
        k += 1;
    }
    assert(table.deep_view() =~= cut.map_values(|i: int| model[i]));
    assert forall|a: int, b: int| 0 <= a < b < table@.len() implies sort_key(
        #[trigger] table@[a].stats,
        by,
    ) >= sort_key(#[trigger] table@[b].stats, by) by {
        assert(outranks(keys, full[a], full[b]));
        assert(table@[a]@ == model[full[a]]);
        assert(table@[b]@ == model[full[b]]);
    }
    table
}

/// The input positions of `entries` in the order of the table.
fn rank_positions(entries: &Vec<AuthorStats>, by: SortBy) -> (order: Vec<usize>)
    ensures
        order@.len() == entries@.len(),
        forall|j: int|
            0 <= j < order@.len() ==> order@[j] as int == #[trigger] ranking(
                keys_of(entries.deep_view(), by),
            )[j],
{
    let ghost model = entries.deep_view();
    let ghost keys = keys_of(model, by);
    let mut order: Vec<usize> = Vec::new();
    let mut i: usize = 0;
    while i < entries.len()
        invariant
            i <= entries@.len(),
            model == entries.deep_view(),
            keys == keys_of(model, by),
            order@.len() == i,
            order@.len() == ranking(keys.take(i as int)).len(),
            forall|j: int|
                0 <= j < order@.len() ==> order@[j] as int == #[trigger] ranking(
                    keys.take(i as int),
                )[j],
            forall|j: int| 0 <= j < order@.len() ==> #[trigger] order@[j] < i,
        decreases entries@.len() - i,
    {
        let ghost before = ranking(keys.take(i as int));
        let key = key_of(&entries[i].stats, by);
        assert(key == keys[i as int]);
        let mut slot: usize = 0;
        while slot < order.len() && key_of(&entries[order[slot]].stats, by) > key
            invariant
                slot <= order@.len(),
                order@.len() == before.len(),
                order@.len() <= i < entries@.len(),
                model == entries.deep_view(),
                keys == keys_of(model, by),
                key == keys[i as int],
                forall|j: int| 0 <= j < order@.len() ==> order@[j] as int == #[trigger] before[j],
                forall|j: int| 0 <= j < order@.len() ==> #[trigger] order@[j] < i,
                slot_from(keys, before, key as nat, 0) == slot_from(
                    keys,
                    before,
                    key as nat,
                    slot as int,
                ),
            decreases order@.len() - slot,
        {
            assert(before[slot as int] == order@[slot as int]);
            slot += 1;
        }
        proof {
            let longer = keys.take(i + 1);
            assert(longer.drop_last() =~= keys.take(i as int));
            assert(longer[i as int] == key);
            if slot < order@.len() {
                assert(before[slot as int] == order@[slot as int]);
            }
            assert(slot_from(keys, before, key as nat, 0) == slot);
            assert forall|k: int| 0 <= k < before.len() implies keys[#[trigger] before[k]]
                == longer[before[k]] by {
                assert(before[k] == order@[k]);
            }
            lemma_slot_agrees(keys, longer, before, key as nat, 0);
            assert(ranking(longer) == before.insert(slot as int, i as int));
        }
        order.insert(slot, i);
        i += 1;
    }
    assert(keys.take(i as int) =~= keys);
    order
}

/// The field-wise sum of the statistics of `entries`.
pub open spec fn total(entries: Seq<AuthorTally>) -> Tally
    decreases entries.len(),
{
    if entries.len() == 0 {
        Tally::zero()
    } else {
        total(entries.drop_last()).plus(entries.last().stats.tally())
    }
}

/// The total of a part of the table is at most the total of the whole.
pub proof fn lemma_total_grows(entries: Seq<AuthorTally>, n: int)
    requires
        0 <= n <= entries.len(),
    ensures
        total(entries.take(n)).le(total(entries)),
    decreases entries.len(),
{
    if n == entries.len() {
        assert(entries.take(n) =~= entries);
    } else {
        lemma_total_grows(entries.drop_last(), n);
        assert(entries.drop_last().take(n) =~= entries.take(n));
    }
}

/// Sums the rows of the table into the row of totals, whose `lines_changed` is the
/// sum of all insertions and deletions. Fails if a sum does not fit in `usize`.
pub fn totals(entries: &Vec<AuthorStats>) -> (sum: Result<UserCommitStats, StatsError>)
    ensures
        sum is Ok <==> total(entries.deep_view()).fits(),
        sum matches Ok(stats) ==> stats.records(total(entries.deep_view())),
        sum matches Err(e) ==> e == StatsError::CountOverflow,
{
    let ghost model = entries.deep_view();
    let mut sum = UserCommitStats::default();
    let mut i: usize = 0;
    while i < entries.len()
        invariant
            i <= entries@.len(),
            model == entries.deep_view(),
            sum.records(total(model.take(i as int))),
        decreases entries@.len() - i,
    {
        let stats = entries[i].stats;
        proof {
            assert(model.take(i + 1).drop_last() =~= model.take(i as int));
            assert(model.take(i + 1).last().stats == stats);
            lemma_total_grows(model, i + 1);
        }
        let commits = sum.commits.checked_add(stats.commits);
        let files_changed = sum.files_changed.checked_add(stats.files_changed);
        let insertions = sum.insertions.checked_add(stats.insertions);
        let deletions = sum.deletions.checked_add(stats.deletions);
        match (commits, files_changed, insertions, deletions) {
            (Some(commits), Some(files_changed), Some(insertions), Some(deletions)) => {
                match insertions.checked_add(deletions) {
                    Some(lines_changed) => {
                        sum =
                        UserCommitStats {
                            commits,
                            files_changed,
                            insertions,
                            deletions,
                            lines_changed,
                        };
                    },
                    None => {
                        return Err(StatsError::CountOverflow);
                    },
                }
            },
            _ => {
                return Err(StatsError::CountOverflow);
            },
        }
        i += 1;
    }
    assert(model.take(i as int) =~= model);
    Ok(sum)
}

/// The number of decimal digits of `n`.
pub open spec fn digits(n: nat) -> nat
    decreases n,
{
    if n < 10 {
        1
    } else {
        1 + digits(n / 10)
    }
}

/// The width of the widest count of a column: the number of decimal digits of
/// the column's total.
pub fn decimal_width(total: usize) -> (width: usize)
    ensures
        width == digits(total as nat),
        1 <= width <= 20,
{
    let mut width: usize = 1;
    let mut rest: usize = total;
    assert(digits(total as nat) <= 20) by {
        reveal_with_fuel(digits, 21);
    }
    while rest >= 10
        invariant
            1 <= width,
            digits(total as nat) == (width - 1) + digits(rest as nat),
            digits(total as nat) <= 20,
        decreases rest,
    {
        rest = rest / 10;
        width += 1;
    }
    width
}

proof fn lemma_slot_bounds(keys: Seq<nat>, order: Seq<int>, key: nat, from: int)
    requires
        0 <= from <= order.len(),
    ensures
        from <= slot_from(keys, order, key, from) <= order.len(),
        forall|k: int|
            from <= k < slot_from(keys, order, key, from) ==> keys[#[trigger] order[k]] > key,
        slot_from(keys, order, key, from) < order.len() ==> keys[order[slot_from(
            keys,
            order,
            key,
            from,
        )]] <= key,
    decreases order.len() - from,
{
    if from < order.len() && keys[order[from]] > key {
        lemma_slot_bounds(keys, order, key, from + 1);
    }
}

proof fn lemma_slot_agrees(keys: Seq<nat>, other: Seq<nat>, order: Seq<int>, key: nat, from: int)
    requires
        0 <= from <= order.len(),
        forall|k: int| 0 <= k < order.len() ==> keys[#[trigger] order[k]] == other[order[k]],
    ensures
        slot_from(keys, order, key, from) == slot_from(other, order, key, from),
    decreases order.len() - from,
{
    if from < order.len() && keys[order[from]] > key {
        lemma_slot_agrees(keys, other, order, key, from + 1);
    }
}

/// The ranking lists every input position exactly once, larger keys first, and
/// of two entries with equal keys the later one first.
pub proof fn lemma_ranking_is_ranking(keys: Seq<nat>)
    ensures
        is_ranking(keys, ranking(keys)),
    decreases keys.len(),
{
    if keys.len() > 0 {
        let shorter = keys.drop_last();
        let before = ranking(shorter);
        let last = keys.len() - 1;
        lemma_ranking_is_ranking(shorter);
        lemma_slot_agrees(keys, shorter, before, keys[last], 0);
        lemma_slot_bounds(keys, before, keys[last], 0);
        let slot = slot_from(keys, before, keys[last], 0);
        let order = before.insert(slot, last);
        assert forall|a: int, b: int| 0 <= a < b < order.len() implies outranks(
            keys,
            #[trigger] order[a],
            #[trigger] order[b],
        ) by {
            if a == slot {
                // order[b] is before[b - 1], at or behind the slot
                let behind = b - 1;
                if behind > slot {
                    assert(outranks(shorter, before[slot], before[behind]));
                }
            } else if b == slot {
                assert(keys[before[a]] > keys[last]);
            } else {
                let x = if a < slot { a } else { a - 1 };
                let y = if b < slot { b } else { b - 1 };
                assert(outranks(shorter, before[x], before[y]));
            }
        }
    }
}

/// Two rankings of the same keys are the same sequence: the order of the table
/// is fixed by the keys.
pub proof fn lemma_ranking_unique(keys: Seq<nat>, first: Seq<int>, second: Seq<int>)
    requires
        is_ranking(keys, first),
        is_ranking(keys, second),
    ensures
        first == second,
    decreases keys.len(),
{
    if keys.len() == 0 {
        assert(first =~= second);
    } else {
        let last = keys.len() - 1;
        let shorter = keys.drop_last();
        lemma_holds_position(keys, first, last);
        lemma_holds_position(keys, second, last);
        let p = choose|p: int| 0 <= p < first.len() && first[p] == last;
        let q = choose|q: int| 0 <= q < second.len() && second[q] == last;
        let f = first.remove(p);
        let s = second.remove(q);
        assert(is_ranking(shorter, f)) by {
            assert forall|k: int| 0 <= k < f.len() implies 0 <= #[trigger] f[k] < shorter.len() by {
                let at = if k < p { k } else { k + 1 };
                assert(f[k] == first[at]);
                if at < p {
                    assert(outranks(keys, first[at], first[p]));
                } else {
                    assert(outranks(keys, first[p], first[at]));
                }
            }
            assert forall|a: int, b: int| 0 <= a < b < f.len() implies outranks(
                shorter,
                #[trigger] f[a],
                #[trigger] f[b],
            ) by {
                let x = if a < p { a } else { a + 1 };
                let y = if b < p { b } else { b + 1 };
                assert(outranks(keys, first[x], first[y]));
            }
        }
        assert(is_ranking(shorter, s)) by {
            assert forall|k: int| 0 <= k < s.len() implies 0 <= #[trigger] s[k] < shorter.len() by {
                let at = if k < q { k } else { k + 1 };
                assert(s[k] == second[at]);
                if at < q {
                    assert(outranks(keys, second[at], second[q]));
                } else {
                    assert(outranks(keys, second[q], second[at]));
                }
            }
            assert forall|a: int, b: int| 0 <= a < b < s.len() implies outranks(
                shorter,
                #[trigger] s[a],
                #[trigger] s[b],
            ) by {
                let x = if a < q { a } else { a + 1 };
                let y = if b < q { b } else { b + 1 };
                assert(outranks(keys, second[x], second[y]));
            }
        }
        lemma_ranking_unique(shorter, f, s);
        // The last position stands behind exactly the entries with a larger key.
        if p < q {
            assert(s[p] == second[p]);
            assert(f[p] == first[p + 1]);
            assert(outranks(keys, first[p], first[p + 1]));
            assert(outranks(keys, second[p], second[q]));
        } else if q < p {
            assert(f[q] == first[q]);
            assert(s[q] == second[q + 1]);
            assert(outranks(keys, second[q], second[q + 1]));
            assert(outranks(keys, first[q], first[p]));
        }
        assert(first =~= f.insert(p, last));
        assert(second =~= s.insert(q, last));
    }
}

/// A ranking holds every position of its keys.
proof fn lemma_holds_position(keys: Seq<nat>, order: Seq<int>, position: int)
    requires
        is_ranking(keys, order),
        0 <= position < keys.len(),
    ensures
        exists|p: int| 0 <= p < order.len() && order[p] == position,
{
    // Distinct entries inside `0..len`, as many as there are positions: none is missing.
    assert forall|a: int, b: int| 0 <= a < b < order.len() implies order[a] != order[b] by {
        assert(outranks(keys, order[a], order[b]));
    }
    lemma_pigeonhole(order, keys.len() as int, position);
}

/// A sequence of `n` distinct numbers below `n` holds each number below `n`.
proof fn lemma_pigeonhole(order: Seq<int>, n: int, wanted: int)
    requires
        order.len() == n,
        0 <= wanted < n,
        forall|k: int| 0 <= k < order.len() ==> 0 <= #[trigger] order[k] < n,
        forall|a: int, b: int| 0 <= a < b < order.len() ==> order[a] != order[b],
    ensures
        exists|p: int| 0 <= p < order.len() && order[p] == wanted,
{
    if forall|p: int| 0 <= p < order.len() ==> order[p] != wanted {
        // With `wanted` missing, its place can be given to `n - 1`.
        let squeezed = Seq::new(
            n as nat,
            |k: int| if order[k] == n - 1 { wanted } else { order[k] },
        );
        assert forall|a: int, b: int| 0 <= a < b < squeezed.len() implies squeezed[a]
            != squeezed[b] by {
            assert(order[a] != order[b]);
        }
        assert forall|k: int| 0 <= k < squeezed.len() implies 0 <= #[trigger] squeezed[k] < n
            - 1 by {
            assert(0 <= order[k] < n);
        }
        lemma_distinct_are_few(squeezed, n - 1);
    }
}

/// No sequence of distinct numbers below `bound` is longer than `bound`.
proof fn lemma_distinct_are_few(values: Seq<int>, bound: int)
    requires
        0 <= bound,
        forall|k: int| 0 <= k < values.len() ==> 0 <= #[trigger] values[k] < bound,
        forall|a: int, b: int| 0 <= a < b < values.len() ==> values[a] != values[b],
    ensures
        values.len() <= bound,
    decreases bound,
{
    if values.len() == 0 {
    } else if bound == 0 {
        assert(0 <= values[0] < bound);
    } else if exists|p: int| 0 <= p < values.len() && values[p] == bound - 1 {
        let p = choose|p: int| 0 <= p < values.len() && values[p] == bound - 1;
        let rest = values.remove(p);
        assert forall|k: int| 0 <= k < rest.len() implies 0 <= #[trigger] rest[k] < bound - 1 by {
            let at = if k < p { k } else { k + 1 };
            assert(rest[k] == values[at]);
            assert(0 <= values[at] < bound);
            if at < p {
                assert(values[at] != values[p]);
            } else {
                assert(values[p] != values[at]);
            }
        }
        assert forall|a: int, b: int| 0 <= a < b < rest.len() implies rest[a] != rest[b] by {
            let x = if a < p { a } else { a + 1 };
            let y = if b < p { b } else { b + 1 };
            assert(values[x] != values[y]);
        }
        lemma_distinct_are_few(rest, bound - 1);
    } else {
        let rest = values.drop_last();
        assert forall|k: int| 0 <= k < rest.len() implies 0 <= #[trigger] rest[k] < bound - 1 by {
            assert(0 <= values[k] < bound);
        }
        assert forall|a: int, b: int| 0 <= a < b < rest.len() implies rest[a] != rest[b] by {
            assert(values[a] != values[b]);
        }
        lemma_distinct_are_few(rest, bound - 1);
    }
}

} // verus!
