//! Merging of date-sorted listings into one list with one record per date.

use vstd::prelude::*;
use crate::date::Date;
use crate::feiertag::{is_sorted_by_date, sorted_by_date, Feiertag};
use crate::lands::{ascending, land_set, lemma_ascending_unique, same_texts, union_lands};

verus! {

/// The date key of record `j` of source `s`.
pub open spec fn key_at(inputs: Seq<Vec<Feiertag>>, s: int, j: int) -> int {
    inputs[s]@[j].date.key()
}

/// Record `j` of source `s` exists and has the date `key`.
pub open spec fn observed(inputs: Seq<Vec<Feiertag>>, s: int, j: int, key: int) -> bool {
    &&& 0 <= s < inputs.len()
    &&& 0 <= j < inputs[s]@.len()
    &&& key_at(inputs, s, j) == key
}

/// Some source has a record with the date `key`.
pub open spec fn has_date(inputs: Seq<Vec<Feiertag>>, key: int) -> bool {
    exists|s: int, j: int| observed(inputs, s, j, key)
}

/// The regions of all records, of all sources, that have the date `key`.
pub open spec fn lands_on(inputs: Seq<Vec<Feiertag>>, key: int) -> Set<Seq<char>> {
    Set::new(
        |land: Seq<char>|
            exists|s: int, j: int|
                observed(inputs, s, j, key) && inputs[s]@[j].regions().contains(land),
    )
}

/// No source before `s` has a record with the date `key`.
pub open spec fn none_before(inputs: Seq<Vec<Feiertag>>, s: int, key: int) -> bool {
    forall|t: int, k: int| 0 <= t < s ==> !observed(inputs, t, k, key)
}

/// `name` is the name that the first source with the date `key` gives it.
pub open spec fn named_on(inputs: Seq<Vec<Feiertag>>, key: int, name: Seq<char>) -> bool {
    exists|s: int, j: int|
        observed(inputs, s, j, key) && none_before(inputs, s, key) && inputs[s]@[j].name@ == name
}

/// Some record of `out` has the date `key`.
pub open spec fn emitted(out: Seq<Feiertag>, key: int) -> bool {
    exists|i: int| 0 <= i < out.len() && (#[trigger] out[i]).date.key() == key
}

/// `day` is what the sources say of its date: the regions of all of them,
/// under the name that the first of them gives.
pub open spec fn gathers(inputs: Seq<Vec<Feiertag>>, day: Feiertag) -> bool {
    &&& has_date(inputs, day.date.key())
    &&& day.regions() == lands_on(inputs, day.date.key())
    &&& named_on(inputs, day.date.key(), day.name@)
}

/// `out` is the merge of `inputs`: strictly ascending by date, with exactly
/// the dates of the sources, each with all its regions.
pub open spec fn merged(inputs: Seq<Vec<Feiertag>>, out: Seq<Feiertag>) -> bool {
    &&& sorted_by_date(out)
    &&& forall|key: int| has_date(inputs, key) <==> emitted(out, key)
    &&& forall|i: int| 0 <= i < out.len() ==> gathers(inputs, #[trigger] out[i])
}

/// The two lists agree record by record in name, date and regions.
pub open spec fn same_days(a: Seq<Feiertag>, b: Seq<Feiertag>) -> bool {
    &&& a.len() == b.len()
    &&& forall|i: int|
        0 <= i < a.len() ==> {
            &&& (#[trigger] a[i]).name@ == b[i].name@
            &&& a[i].date == b[i].date
            &&& a[i].regions() == b[i].regions()
        }
}

/// The two lists agree record by record in name, date and the vector of
/// regions.
pub open spec fn unchanged(a: Seq<Feiertag>, b: Seq<Feiertag>) -> bool {
    &&& same_days(a, b)
    &&& forall|i: int| 0 <= i < a.len() ==> same_texts((#[trigger] a[i]).lands@, b[i].lands@)
}

/// The sum of the numbers.
pub open spec fn total(v: Seq<int>) -> int
    decreases v.len(),
{
    if v.len() == 0 {
        0
    } else {
        total(v.drop_last()) + v.last()
    }
}

/// The lengths of the sources.
pub open spec fn lengths(inputs: Seq<Vec<Feiertag>>) -> Seq<int> {
    Seq::new(inputs.len(), |s: int| inputs[s]@.len() as int)
}

/// The cursors as numbers.
pub open spec fn offsets(pos: Seq<usize>) -> Seq<int> {
    Seq::new(pos.len(), |s: int| pos[s] as int)
}

/// Record `j` of source `s` exists.
pub open spec fn present(inputs: Seq<Vec<Feiertag>>, s: int, j: int) -> bool {
    0 <= s < inputs.len() && 0 <= j < inputs[s]@.len()
}

/// No date occurs in two sources.
pub open spec fn disjoint_dates(inputs: Seq<Vec<Feiertag>>) -> bool {
    forall|s: int, j: int, t: int, k: int|
        #[trigger] present(inputs, s, j) && #[trigger] present(inputs, t, k) && key_at(inputs, s, j)
            == key_at(inputs, t, k) ==> s == t
}

pub proof fn lemma_total_monotone(a: Seq<int>, b: Seq<int>)
    requires
        a.len() == b.len(),
        forall|s: int| 0 <= s < a.len() ==> a[s] <= b[s],
    ensures
        total(a) <= total(b),
    decreases a.len(),
{
    if a.len() > 0 {
        lemma_total_monotone(a.drop_last(), b.drop_last());
    }
}

pub proof fn lemma_total_strict(a: Seq<int>, b: Seq<int>, at: int)
    requires
        a.len() == b.len(),
        forall|s: int| 0 <= s < a.len() ==> a[s] <= b[s],
        0 <= at < a.len(),
        a[at] < b[at],
    ensures
        total(a) < total(b),
    decreases a.len(),
{
    if at == a.len() - 1 {
        lemma_total_monotone(a.drop_last(), b.drop_last());
    } else {
        lemma_total_strict(a.drop_last(), b.drop_last(), at);
    }
}

pub proof fn lemma_total_single(a: Seq<int>, b: Seq<int>, at: int)
    requires
        a.len() == b.len(),
        0 <= at < a.len(),
        forall|s: int| 0 <= s < a.len() && s != at ==> a[s] == b[s],
        b[at] == a[at] + 1,
    ensures
        total(b) == total(a) + 1,
    decreases a.len(),
{
    if at == a.len() - 1 {
        assert(a.drop_last() =~= b.drop_last());
    } else {
        lemma_total_single(a.drop_last(), b.drop_last(), at);
    }
}

pub proof fn lemma_total_double(a: Seq<int>, b: Seq<int>, at: int, other: int)
    requires
        a.len() == b.len(),
        forall|s: int| 0 <= s < a.len() ==> a[s] <= b[s],
        0 <= at < a.len(),
        0 <= other < a.len(),
        at != other,
        a[at] < b[at],
        a[other] < b[other],
    ensures
        total(a) + 2 <= total(b),
    decreases a.len(),
{
    if at == a.len() - 1 {
        lemma_total_strict(a.drop_last(), b.drop_last(), other);
    } else if other == a.len() - 1 {
        lemma_total_strict(a.drop_last(), b.drop_last(), at);
    } else {
        lemma_total_double(a.drop_last(), b.drop_last(), at, other);
    }
}

pub proof fn lemma_total_zero(a: Seq<int>)
    requires
        forall|s: int| 0 <= s < a.len() ==> a[s] == 0,
    ensures
        total(a) == 0,
    decreases a.len(),
{
    if a.len() > 0 {
        lemma_total_zero(a.drop_last());
    }
}

/// Every source is sorted and every cursor is within its source.
pub open spec fn cursors_ok(inputs: Seq<Vec<Feiertag>>, pos: Seq<usize>) -> bool {
    &&& pos.len() == inputs.len()
    &&& forall|s: int| 0 <= s < inputs.len() ==> sorted_by_date(#[trigger] inputs[s]@)
    &&& forall|s: int| 0 <= s < inputs.len() ==> (#[trigger] pos[s]) <= inputs[s]@.len()
}

/// The cursor of source `s` stands at a record with the date `key`.
pub open spec fn at_head(inputs: Seq<Vec<Feiertag>>, pos: Seq<usize>, s: int, key: int) -> bool {
    &&& 0 <= s < inputs.len()
    &&& pos[s] < inputs[s]@.len()
    &&& key_at(inputs, s, pos[s] as int) == key
}

/// The regions of the records with the date `key` under the cursors of the
/// first `upto` sources.
pub open spec fn heads_lands(
    inputs: Seq<Vec<Feiertag>>,
    pos: Seq<usize>,
    key: int,
    upto: int,
) -> Set<Seq<char>> {
    Set::new(
        |land: Seq<char>|
            exists|s: int|
                0 <= s < upto && #[trigger] at_head(inputs, pos, s, key) && inputs[s]@[pos[s] as int].regions().contains(
                    land,
                ),
    )
}

/// The first source whose cursor stands at the earliest date among all
/// cursors, or `None` when every source is used up.
pub fn earliest_head(inputs: &[Vec<Feiertag>], pos: &Vec<usize>) -> (first: Option<usize>)
    requires
        cursors_ok(inputs@, pos@),
    ensures
        first is None ==> forall|s: int| 0 <= s < inputs@.len() ==> pos@[s] == inputs@[s]@.len(),
        first matches Some(f) ==> {
            &&& f < inputs@.len()
            &&& pos@[f as int] < inputs@[f as int]@.len()
            &&& forall|s: int|
                0 <= s < inputs@.len() && pos@[s] < inputs@[s]@.len() ==> key_at(
                    inputs@,
                    f as int,
                    pos@[f as int] as int,
                ) <= #[trigger] key_at(inputs@, s, pos@[s] as int)
            &&& forall|s: int|
                0 <= s < f && pos@[s] < inputs@[s]@.len() ==> key_at(
                    inputs@,
                    f as int,
                    pos@[f as int] as int,
                ) < #[trigger] key_at(inputs@, s, pos@[s] as int)
        },
{
    let mut first: Option<usize> = None;
    let mut s: usize = 0;
    while s < inputs.len()
        invariant
            s <= inputs@.len(),
            cursors_ok(inputs@, pos@),
            first is None ==> forall|t: int| 0 <= t < s ==> pos@[t] == inputs@[t]@.len(),
            first matches Some(f) ==> {
                &&& f < s
                &&& pos@[f as int] < inputs@[f as int]@.len()
                &&& forall|t: int|
                    0 <= t < s && pos@[t] < inputs@[t]@.len() ==> key_at(
                        inputs@,
                        f as int,
                        pos@[f as int] as int,
                    ) <= #[trigger] key_at(inputs@, t, pos@[t] as int)
                &&& forall|t: int|
                    0 <= t < f && pos@[t] < inputs@[t]@.len() ==> key_at(
                        inputs@,
                        f as int,
                        pos@[f as int] as int,
                    ) < #[trigger] key_at(inputs@, t, pos@[t] as int)
            },
        decreases inputs@.len() - s,
    {
        if pos[s] < inputs[s].len() {
            match first {
                None => {
                    first = Some(s);
                },
                Some(f) => {
                    if inputs[s][pos[s]].date.is_before(&inputs[f][pos[f]].date) {
                        first = Some(s);
                    }
                },
            }
        }
        s += 1;
    }
    first
}

/// Moves every cursor that stands at the date `date` one record on, and
/// returns the regions of the records passed.
pub fn take_heads(inputs: &[Vec<Feiertag>], pos: &mut Vec<usize>, date: &Date) -> (lands: Vec<
    String,
>)
    requires
        cursors_ok(inputs@, old(pos)@),
    ensures
        cursors_ok(inputs@, final(pos)@),
        forall|s: int|
            0 <= s < inputs@.len() ==> (#[trigger] final(pos)@[s]) == old(pos)@[s] + (if at_head(
                inputs@,
                old(pos)@,
                s,
                date.key(),
            ) {
                1int
            } else {
                0int
            }),
        ascending(lands@),
        land_set(lands@) == heads_lands(inputs@, old(pos)@, date.key(), inputs@.len() as int),
{
    let mut lands: Vec<String> = Vec::new();
    let mut s: usize = 0;
    proof {
        assert(land_set(lands@) =~= heads_lands(inputs@, old(pos)@, date.key(), 0));
    }
    while s < inputs.len()
        invariant
            s <= inputs@.len(),
            cursors_ok(inputs@, old(pos)@),
            cursors_ok(inputs@, pos@),
            forall|t: int|
                0 <= t < s ==> (#[trigger] pos@[t]) == old(pos)@[t] + (if at_head(
                    inputs@,
                    old(pos)@,
                    t,
                    date.key(),
                ) {
                    1int
                } else {
                    0int
                }),
            forall|t: int| s <= t < inputs@.len() ==> (#[trigger] pos@[t]) == old(pos)@[t],
            ascending(lands@),
            land_set(lands@) == heads_lands(inputs@, old(pos)@, date.key(), s as int),
        decreases inputs@.len() - s,
    {
        let at: usize = pos[s];
        let ghost before = land_set(lands@);
        if at < inputs[s].len() && inputs[s][at].date.same_day(date) {
            assert(inputs@[s as int]@[at as int].wf());
            union_lands(&mut lands, &inputs[s][at].lands);
            pos.set(s, at + 1);
            proof {
                let head = inputs@[s as int]@[at as int];
                assert(at_head(inputs@, old(pos)@, s as int, date.key()));
                assert forall|land: Seq<char>|
                    before.union(head.regions()).contains(land) <==> heads_lands(
                        inputs@,
                        old(pos)@,
                        date.key(),
                        s + 1,
                    ).contains(land) by {
                    if heads_lands(inputs@, old(pos)@, date.key(), s + 1).contains(land) {
                        let t = choose|t: int|
                            0 <= t < s + 1 && #[trigger] at_head(inputs@, old(pos)@, t, date.key())
                                && inputs@[t]@[old(pos)@[t] as int].regions().contains(land);
                        if t < s {
                            assert(heads_lands(inputs@, old(pos)@, date.key(), s as int).contains(
                                land,
                            ));
                        }
                    }
                }
                assert(land_set(lands@) =~= heads_lands(inputs@, old(pos)@, date.key(), s + 1));
            }
        } else {
            proof {
                assert(!at_head(inputs@, old(pos)@, s as int, date.key()));
                assert(before =~= heads_lands(inputs@, old(pos)@, date.key(), s + 1));
            }
        }
        s += 1;
    }
    lands
}

/// Record `j` of source `s` lies before the cursor.
spec fn passed(inputs: Seq<Vec<Feiertag>>, pos: Seq<usize>, s: int, j: int) -> bool {
    0 <= s < inputs.len() && 0 <= j < pos[s]
}

/// Record `k` of source `t` lies at or after the cursor.
spec fn waiting(inputs: Seq<Vec<Feiertag>>, pos: Seq<usize>, t: int, k: int) -> bool {
    0 <= t < inputs.len() && pos[t] <= k < inputs[t]@.len()
}

/// No date occurs before the cursors of two sources.
spec fn passed_disjoint(inputs: Seq<Vec<Feiertag>>, pos: Seq<usize>) -> bool {
    forall|s: int, j: int, t: int, k: int|
        #[trigger] passed(inputs, pos, s, j) && #[trigger] passed(inputs, pos, t, k) && key_at(
            inputs,
            s,
            j,
        ) == key_at(inputs, t, k) ==> s == t
}

/// What holds of the cursors and the output between two steps of the merge.
spec fn in_step(inputs: Seq<Vec<Feiertag>>, pos: Seq<usize>, out: Seq<Feiertag>) -> bool {
    &&& cursors_ok(inputs, pos)
    &&& sorted_by_date(out)
    &&& forall|s: int, j: int| #[trigger]
        passed(inputs, pos, s, j) ==> emitted(out, key_at(inputs, s, j))
    &&& forall|i: int, t: int, k: int|
        0 <= i < out.len() && #[trigger] waiting(inputs, pos, t, k) ==> (#[trigger] out[i]).date.key()
            < key_at(inputs, t, k)
    &&& forall|i: int| 0 <= i < out.len() ==> gathers(inputs, #[trigger] out[i])
    &&& forall|s: int| 0 <= s < inputs.len() ==> (#[trigger] pos[s]) <= out.len()
    &&& out.len() <= total(offsets(pos))
    &&& out.len() == total(offsets(pos)) <==> passed_disjoint(inputs, pos)
    &&& inputs.len() == 1 ==> pos[0] == out.len() && same_days(out, inputs[0]@.take(pos[0] as int))
}

/// Every source is sorted by date.
pub open spec fn sources_sorted(inputs: Seq<Vec<Feiertag>>) -> bool {
    forall|s: int| 0 <= s < inputs.len() ==> sorted_by_date(#[trigger] inputs[s]@)
}

/// Whether every source is sorted by date.
pub fn are_sorted(inputs: &[Vec<Feiertag>]) -> (r: bool)
    ensures
        r == sources_sorted(inputs@),
{
    let mut s: usize = 0;
    while s < inputs.len()
        invariant
            s <= inputs@.len(),
            forall|t: int| 0 <= t < s ==> sorted_by_date(#[trigger] inputs@[t]@),
        decreases inputs@.len() - s,
    {
        if !is_sorted_by_date(inputs[s].as_slice()) {
            return false;
        }
        s += 1;
    }
    true
}

/// Merges the listings if each of them is sorted by date, and returns `None`
/// if one of them is not.
pub fn try_merge(inputs: &[Vec<Feiertag>]) -> (out: Option<Vec<Feiertag>>)
    ensures
        match out {
            Some(days) => sources_sorted(inputs@) && merged(inputs@, days@),
            None => !sources_sorted(inputs@),
        },
{
    if are_sorted(inputs) {
        Some(merge(inputs))
    } else {
        None
    }
}

/// Merges listings that are each sorted by date into one list, sorted by
/// date, with one record for each date. The record has the regions of every
/// source's record for that date, and the name that the first such source
/// gives.
pub fn merge(inputs: &[Vec<Feiertag>]) -> (out: Vec<Feiertag>)
    requires
        sources_sorted(inputs@),
    ensures
        merged(inputs@, out@),
        out@.len() <= total(lengths(inputs@)),
        out@.len() == total(lengths(inputs@)) <==> disjoint_dates(inputs@),
        forall|s: int| 0 <= s < inputs@.len() ==> (#[trigger] inputs@[s])@.len() <= out@.len(),
        inputs@.len() == 0 ==> out@.len() == 0,
        inputs@.len() == 1 ==> unchanged(out@, inputs@[0]@),
{
    let mut pos: Vec<usize> = Vec::new();
    while pos.len() < inputs.len()
        invariant
            pos@.len() <= inputs@.len(),
            forall|s: int| 0 <= s < pos@.len() ==> (#[trigger] pos@[s]) == 0,
        decreases inputs@.len() - pos@.len(),
    {
        pos.push(0);
    }
    let mut out: Vec<Feiertag> = Vec::new();
    proof {
        lemma_total_zero(offsets(pos@));
        if inputs@.len() == 1 {
            assert(same_days(out@, inputs@[0]@.take(0)));
        }
    }
    loop
        invariant
            in_step(inputs@, pos@, out@),
            forall|s: int| 0 <= s < inputs@.len() ==> sorted_by_date(#[trigger] inputs@[s]@),
        ensures
            in_step(inputs@, pos@, out@),
            forall|s: int| 0 <= s < inputs@.len() ==> (#[trigger] pos@[s]) == inputs@[s]@.len(),
        decreases total(lengths(inputs@)) - total(offsets(pos@)),
    {
        let first = earliest_head(inputs, &pos);
        match first {
            None => {
                break ;
            },
            Some(f) => {
                let ghost before = pos@;
                let ghost emitted_before = out@;
                let head = &inputs[f][pos[f]];
                let name = head.name.clone();
                let date = head.date;
                let ghost key = date.key();
                assert(inputs@[f as int]@[before[f as int] as int].wf());
                let lands = take_heads(inputs, &mut pos, &date);
                let day = Feiertag { name, date, lands };
                out.push(day);
                proof {
                    lemma_step(inputs@, before, pos@, emitted_before, out@, f as int, day);
                    lemma_total_monotone(offsets(pos@), lengths(inputs@));
                }
            },
        }
    }
    proof {
        assert(offsets(pos@) =~= lengths(inputs@));
        if passed_disjoint(inputs@, pos@) {
            assert forall|s: int, j: int, t: int, k: int|
                #[trigger] present(inputs@, s, j) && #[trigger] present(inputs@, t, k) && key_at(
                    inputs@,
                    s,
                    j,
                ) == key_at(inputs@, t, k) implies s == t by {
                assert(passed(inputs@, pos@, s, j));
                assert(passed(inputs@, pos@, t, k));
            }
        }
        if disjoint_dates(inputs@) {
            assert forall|s: int, j: int, t: int, k: int|
                #[trigger] passed(inputs@, pos@, s, j) && #[trigger] passed(inputs@, pos@, t, k)
                    && key_at(inputs@, s, j) == key_at(inputs@, t, k) implies s == t by {
                assert(present(inputs@, s, j));
                assert(present(inputs@, t, k));
            }
        }
        assert forall|key: int| has_date(inputs@, key) implies emitted(out@, key) by {
            let (s, j) = choose|s: int, j: int| observed(inputs@, s, j, key);
            assert(passed(inputs@, pos@, s, j));
        }
        assert forall|key: int| emitted(out@, key) implies has_date(inputs@, key) by {
            let i = choose|i: int| 0 <= i < out@.len() && (#[trigger] out@[i]).date.key() == key;
            assert(gathers(inputs@, out@[i]));
        }
        if inputs@.len() == 1 {
            assert(inputs@[0]@.take(pos@[0] as int) =~= inputs@[0]@);
            assert forall|i: int| 0 <= i < out@.len() implies same_texts(
                (#[trigger] out@[i]).lands@,
                inputs@[0]@[i].lands@,
            ) by {
                assert(out@[i].wf());
                assert(inputs@[0]@[i].wf());
                lemma_ascending_unique(out@[i].lands@, inputs@[0]@[i].lands@);
            }
        }
        if inputs@.len() == 0 {
            assert(offsets(pos@) =~= Seq::<int>::empty());
        }
        assert forall|s: int| 0 <= s < inputs@.len() implies (#[trigger] inputs@[s])@.len()
            <= out@.len() by {
            assert(pos@[s] <= out@.len());
        }
    }
    out
}

/// One step of the merge keeps what holds between steps.
proof fn lemma_step(
    inputs: Seq<Vec<Feiertag>>,
    before: Seq<usize>,
    after: Seq<usize>,
    out: Seq<Feiertag>,
    grown: Seq<Feiertag>,
    f: int,
    day: Feiertag,
)
    requires
        in_step(inputs, before, out),
        cursors_ok(inputs, after),
        0 <= f < inputs.len(),
        before[f] < inputs[f]@.len(),
        forall|s: int|
            0 <= s < inputs.len() && before[s] < inputs[s]@.len() ==> key_at(
                inputs,
                f,
                before[f] as int,
            ) <= #[trigger] key_at(inputs, s, before[s] as int),
        forall|s: int|
            0 <= s < f && before[s] < inputs[s]@.len() ==> key_at(inputs, f, before[f] as int)
                < #[trigger] key_at(inputs, s, before[s] as int),
        forall|s: int|
            0 <= s < inputs.len() ==> (#[trigger] after[s]) == before[s] + (if at_head(
                inputs,
                before,
                s,
                day.date.key(),
            ) {
                1int
            } else {
                0int
            }),
        day.date == inputs[f]@[before[f] as int].date,
        day.name@ == inputs[f]@[before[f] as int].name@,
        ascending(day.lands@),
        land_set(day.lands@) == heads_lands(inputs, before, day.date.key(), inputs.len() as int),
        grown == out.push(day),
    ensures
        in_step(inputs, after, grown),
        total(offsets(before)) < total(offsets(after)),
{
    let key = day.date.key();
    let fj = before[f] as int;
    assert(key == key_at(inputs, f, fj));
    assert(at_head(inputs, before, f, key));
    assert(waiting(inputs, before, f, fj));
    assert(inputs[f]@[fj].wf());
    // every record with this date stands under a cursor
    assert forall|s: int, j: int| observed(inputs, s, j, key) implies j == before[s] by {
        assert(sorted_by_date(inputs[s]@));
        if j < before[s] {
            assert(passed(inputs, before, s, j));
            let i = choose|i: int| 0 <= i < out.len() && (#[trigger] out[i]).date.key() == key;
            assert(out[i].date.key() < key_at(inputs, f, fj));
        } else if j > before[s] {
            assert(inputs[s]@[before[s] as int].date.key() < inputs[s]@[j].date.key());
            assert(key <= key_at(inputs, s, before[s] as int));
        }
    }
    assert(observed(inputs, f, fj, key));
    assert(has_date(inputs, key));
    assert(none_before(inputs, f, key)) by {
        assert forall|t: int, k: int| 0 <= t < f implies !observed(inputs, t, k, key) by {
            if observed(inputs, t, k, key) {
                assert(k == before[t]);
                assert(key < key_at(inputs, t, before[t] as int));
            }
        }
    }
    assert(named_on(inputs, key, day.name@));
    assert forall|land: Seq<char>|
        lands_on(inputs, key).contains(land) <==> heads_lands(
            inputs,
            before,
            key,
            inputs.len() as int,
        ).contains(land) by {
        if lands_on(inputs, key).contains(land) {
            let (s, j) = choose|s: int, j: int|
                observed(inputs, s, j, key) && inputs[s]@[j].regions().contains(land);
            assert(j == before[s]);
            assert(at_head(inputs, before, s, key));
        }
        if heads_lands(inputs, before, key, inputs.len() as int).contains(land) {
            let s = choose|s: int|
                0 <= s < inputs.len() && #[trigger] at_head(inputs, before, s, key)
                    && inputs[s]@[before[s] as int].regions().contains(land);
            assert(observed(inputs, s, before[s] as int, key));
        }
    }
    assert(day.regions() =~= lands_on(inputs, key));
    assert(gathers(inputs, day));
    assert(day.wf());
    // the output stays sorted
    assert forall|i: int| 0 <= i < out.len() implies (#[trigger] out[i]).date.key() < key by {
        assert(waiting(inputs, before, f, fj));
    }
    assert(sorted_by_date(grown));
    assert forall|i: int| 0 <= i < grown.len() implies gathers(inputs, #[trigger] grown[i]) by {
        if i < out.len() {
            assert(grown[i] == out[i]);
        }
    }
    assert forall|s: int, j: int| #[trigger] passed(inputs, after, s, j) implies emitted(
        grown,
        key_at(inputs, s, j),
    ) by {
        assert(after[s] == before[s] + (if at_head(inputs, before, s, key) { 1int } else { 0int }));
        if j < before[s] {
            assert(passed(inputs, before, s, j));
            let i = choose|i: int|
                0 <= i < out.len() && (#[trigger] out[i]).date.key() == key_at(inputs, s, j);
            assert(grown[i] == out[i]);
        } else {
            assert(grown[out.len() as int].date.key() == key_at(inputs, s, j));
        }
    }
    assert forall|i: int, t: int, k: int|
        0 <= i < grown.len() && #[trigger] waiting(inputs, after, t, k) implies (#[trigger] grown[i]).date.key()
            < key_at(inputs, t, k) by {
        assert(after[t] == before[t] + (if at_head(inputs, before, t, key) { 1int } else { 0int }));
        assert(waiting(inputs, before, t, k));
        assert(sorted_by_date(inputs[t]@));
        if i < out.len() {
            assert(grown[i] == out[i]);
        } else {
            assert(key <= key_at(inputs, t, before[t] as int));
            if k > before[t] {
                assert(inputs[t]@[before[t] as int].date.key() < inputs[t]@[k].date.key());
            }
        }
    }
    assert forall|s: int| 0 <= s < inputs.len() implies (#[trigger] after[s]) <= grown.len() by {
        assert(before[s] <= out.len());
    }
    assert(after[f] == before[f] + 1);
    lemma_total_strict(offsets(before), offsets(after), f);
    // every record passed before this step has an earlier date
    assert forall|s: int, j: int| #[trigger] passed(inputs, before, s, j) implies key_at(
        inputs,
        s,
        j,
    ) < key by {
        let i = choose|i: int|
            0 <= i < out.len() && (#[trigger] out[i]).date.key() == key_at(inputs, s, j);
        assert(out[i].date.key() < key_at(inputs, f, fj));
    }
    assert forall|s: int, j: int| #[trigger]
        passed(inputs, after, s, j) && !passed(inputs, before, s, j) implies at_head(
        inputs,
        before,
        s,
        key,
    ) && j == before[s] by {
        assert(after[s] == before[s] + (if at_head(inputs, before, s, key) { 1int } else { 0int }));
    }
    assert(passed(inputs, after, f, fj));
    if exists|g: int| g != f && at_head(inputs, before, g, key) {
        let g = choose|g: int| g != f && at_head(inputs, before, g, key);
        assert(after[g] == before[g] + 1);
        lemma_total_double(offsets(before), offsets(after), f, g);
        assert(passed(inputs, after, g, before[g] as int));
        assert(key_at(inputs, g, before[g] as int) == key_at(inputs, f, fj));
        assert(!passed_disjoint(inputs, after));
    } else {
        assert forall|s: int| 0 <= s < inputs.len() && s != f implies offsets(before)[s] == offsets(
            after,
        )[s] by {
            assert(!at_head(inputs, before, s, key));
            assert(after[s] == before[s] + (if at_head(inputs, before, s, key) { 1int } else { 0int }));
        }
        lemma_total_single(offsets(before), offsets(after), f);
        if passed_disjoint(inputs, before) {
            assert forall|s: int, j: int, t: int, k: int|
                #[trigger] passed(inputs, after, s, j) && #[trigger] passed(inputs, after, t, k)
                    && key_at(inputs, s, j) == key_at(inputs, t, k) implies s == t by {
                if passed(inputs, before, s, j) && passed(inputs, before, t, k) {
                } else if passed(inputs, before, s, j) {
                    assert(at_head(inputs, before, t, key));
                } else if passed(inputs, before, t, k) {
                    assert(at_head(inputs, before, s, key));
                } else {
                    assert(at_head(inputs, before, s, key));
                    assert(at_head(inputs, before, t, key));
                }
            }
        }
        if passed_disjoint(inputs, after) {
            assert forall|s: int, j: int, t: int, k: int|
                #[trigger] passed(inputs, before, s, j) && #[trigger] passed(inputs, before, t, k)
                    && key_at(inputs, s, j) == key_at(inputs, t, k) implies s == t by {
                assert(after[s] >= before[s]);
                assert(after[t] >= before[t]);
                assert(passed(inputs, after, s, j));
                assert(passed(inputs, after, t, k));
            }
        }
    }
    if inputs.len() == 1 {
        let taken = inputs[0]@.take(after[0] as int);
        let earlier = inputs[0]@.take(before[0] as int);
        assert(f == 0);
        assert forall|i: int| 0 <= i < grown.len() implies {
            &&& (#[trigger] grown[i]).name@ == taken[i].name@
            &&& grown[i].date == taken[i].date
            &&& grown[i].regions() == taken[i].regions()
        } by {
            if i < out.len() {
                assert(grown[i] == out[i]);
                assert(taken[i] == earlier[i]);
            } else {
                let head = inputs[0]@[fj];
                assert(taken[i] == head);
                assert forall|land: Seq<char>|
                    head.regions().contains(land) <==> heads_lands(inputs, before, key, 1).contains(
                        land,
                    ) by {
                    if heads_lands(inputs, before, key, 1).contains(land) {
                        let s = choose|s: int|
                            0 <= s < 1 && #[trigger] at_head(inputs, before, s, key)
                                && inputs[s]@[before[s] as int].regions().contains(land);
                        assert(s == 0);
                    }
                }
                assert(head.regions() =~= grown[i].regions());
            }
        }
    }
}

} // verus!
