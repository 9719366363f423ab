//! Sets of region names, kept as strictly ascending vectors of strings.

use vstd::prelude::*;

verus! {

/// Lexicographic order on texts, character by character, by code point.
pub open spec fn text_less(a: Seq<char>, b: Seq<char>) -> bool
    decreases a.len(),
{
    if b.len() == 0 {
        false
    } else if a.len() == 0 {
        true
    } else if a[0] != b[0] {
        a[0] < b[0]
    } else {
        text_less(a.drop_first(), b.drop_first())
    }
}

/// The names are in strictly ascending order, so none occurs twice.
pub open spec fn ascending(lands: Seq<String>) -> bool {
    forall|i: int, j: int| 0 <= i < j < lands.len() ==> text_less(#[trigger] lands[i]@, #[trigger] lands[j]@)
}

/// The set of names that the vector holds.
pub open spec fn land_set(lands: Seq<String>) -> Set<Seq<char>> {
    Set::new(|name: Seq<char>| exists|i: int| 0 <= i < lands.len() && #[trigger] lands[i]@ == name)
}

pub proof fn lemma_text_less_transitive(a: Seq<char>, b: Seq<char>, c: Seq<char>)
    requires
        text_less(a, b),
        text_less(b, c),
    ensures
        text_less(a, c),
    decreases a.len(),
{
    if a.len() > 0 && a[0] == b[0] && b[0] == c[0] {
        lemma_text_less_transitive(a.drop_first(), b.drop_first(), c.drop_first());
    }
}

pub proof fn lemma_text_less_total(a: Seq<char>, b: Seq<char>)
    ensures
        text_less(a, b) || text_less(b, a) || a == b,
        !(text_less(a, b) && text_less(b, a)),
        !text_less(a, a),
    decreases a.len(),
{
    if a.len() > 0 && b.len() > 0 && a[0] == b[0] {
        lemma_text_less_total(a.drop_first(), b.drop_first());
        if a.drop_first() == b.drop_first() {
            assert(a =~= seq![a[0]] + a.drop_first());
            assert(b =~= seq![b[0]] + b.drop_first());
        }
    } else if a.len() == 0 && b.len() == 0 {
        assert(a =~= b);
    } else if a.len() > 0 && b.len() > 0 {
    }
    if a.len() > 0 {
        lemma_text_less_irreflexive(a);
    }
}

pub proof fn lemma_text_less_irreflexive(a: Seq<char>)
    ensures
        !text_less(a, a),
    decreases a.len(),
{
    if a.len() > 0 {
        lemma_text_less_irreflexive(a.drop_first());
    }
}

/// The two vectors hold the same texts at the same places.
pub open spec fn same_texts(a: Seq<String>, b: Seq<String>) -> bool {
    &&& a.len() == b.len()
    &&& forall|i: int| 0 <= i < a.len() ==> (#[trigger] a[i])@ == b[i]@
}

/// An ascending vector is determined by the set of its names.
pub proof fn lemma_ascending_unique(a: Seq<String>, b: Seq<String>)
    requires
        ascending(a),
        ascending(b),
        land_set(a) == land_set(b),
    ensures
        same_texts(a, b),
    decreases a.len(),
{
    if a.len() == 0 {
        if b.len() > 0 {
            assert(land_set(b).contains(b[0]@));
        }
    } else if b.len() == 0 {
        assert(land_set(a).contains(a[0]@));
    } else {
        let x = a.last();
        let y = b.last();
        assert(land_set(a).contains(x@));
        assert(land_set(b).contains(y@));
        let i = choose|i: int| 0 <= i < a.len() && #[trigger] a[i]@ == y@;
        let k = choose|k: int| 0 <= k < b.len() && #[trigger] b[k]@ == x@;
        lemma_text_less_total(x@, y@);
        if i < a.len() - 1 {
            assert(text_less(a[i]@, x@));
        }
        if k < b.len() - 1 {
            assert(text_less(b[k]@, y@));
        }
        assert(x@ == y@);
        lemma_text_less_irreflexive(x@);
        let a0 = a.drop_last();
        let b0 = b.drop_last();
        assert forall|t: Seq<char>| land_set(a0).contains(t) <==> land_set(b0).contains(t) by {
            if land_set(a0).contains(t) {
                let m = choose|m: int| 0 <= m < a0.len() && #[trigger] a0[m]@ == t;
                assert(text_less(a[m]@, x@));
                assert(land_set(a).contains(t));
                let n = choose|n: int| 0 <= n < b.len() && #[trigger] b[n]@ == t;
                assert(b0[n]@ == t);
            }
            if land_set(b0).contains(t) {
                let m = choose|m: int| 0 <= m < b0.len() && #[trigger] b0[m]@ == t;
                assert(text_less(b[m]@, y@));
                assert(land_set(b).contains(t));
                let n = choose|n: int| 0 <= n < a.len() && #[trigger] a[n]@ == t;
                assert(a0[n]@ == t);
            }
        }
        assert(land_set(a0) =~= land_set(b0));
        lemma_ascending_unique(a0, b0);
        assert forall|j: int| 0 <= j < a.len() implies (#[trigger] a[j])@ == b[j]@ by {
            if j < a.len() - 1 {
                assert(a0[j]@ == b0[j]@);
            }
        }
    }
}

/// Compares two strings with std's `<` on `str`, which orders strings
/// lexicographically by their bytes; for UTF-8 that is the order of the code
/// points, character by character.
#[verifier::external_body]
fn str_less(a: &str, b: &str) -> (r: bool)
    ensures
        r == text_less(a@, b@),
{
    a < b
}

/// Whether the names are in strictly ascending order.
pub fn is_ascending(lands: &Vec<String>) -> (r: bool)
    ensures
        r == ascending(lands@),
{
    let mut i: usize = 1;
    while i < lands.len()
        invariant
            1 <= i,
            forall|a: int, b: int|
                0 <= a < b < i && b < lands@.len() ==> text_less(
                    #[trigger] lands@[a]@,
                    #[trigger] lands@[b]@,
                ),
        decreases lands@.len() - i,
    {
        if !str_less(lands[i - 1].as_str(), lands[i].as_str()) {
            return false;
        }
        proof {
            assert forall|a: int, b: int| 0 <= a < b < i + 1 implies text_less(
                #[trigger] lands@[a]@,
                #[trigger] lands@[b]@,
            ) by {
                if b == i && a < i - 1 {
                    lemma_text_less_transitive(lands@[a]@, lands@[i - 1]@, lands@[i as int]@);
                }
            }
        }
        i += 1;
    }
    true
}

/// Adds one name to an ascending vector, keeping it ascending.
pub fn insert_land(lands: &mut Vec<String>, name: &String)
    requires
        ascending(old(lands)@),
    ensures
        ascending(final(lands)@),
        land_set(final(lands)@) == land_set(old(lands)@).insert(name@),
{
    let mut i: usize = 0;
    while i < lands.len() && str_less(lands[i].as_str(), name.as_str())
        invariant
            i <= lands.len(),
            *lands == *old(lands),
            forall|k: int| 0 <= k < i ==> text_less(#[trigger] lands[k]@, name@),
        decreases lands.len() - i,
    {
        i += 1;
    }
    let ghost before = lands@;
    proof {
        assert forall|k: int| 0 <= k < i implies #[trigger] before[k]@ != name@ by {
            lemma_text_less_irreflexive(name@);
        }
    }
    if i < lands.len() && lands[i] == *name {
        proof {
            assert(land_set(before).insert(name@) =~= land_set(before));
        }
    } else {
        lands.insert(i, name.clone());
        proof {
            let after = lands@;
            assert forall|a: int, b: int| 0 <= a < b < after.len() implies text_less(
                #[trigger] after[a]@,
                #[trigger] after[b]@,
            ) by {
                if i < before.len() {
                    lemma_text_less_total(before[i as int]@, name@);
                }
                if b == i {
                } else if a == i {
                    if b - 1 > i {
                        assert(text_less(before[i as int]@, before[b - 1]@));
                        lemma_text_less_transitive(name@, before[i as int]@, before[b - 1]@);
                    }
                } else if a < i && b > i {
                    assert(text_less(before[a]@, before[b - 1]@));
                } else if a < i {
                    assert(text_less(before[a]@, before[b]@));
                } else {
                    assert(text_less(before[a - 1]@, before[b - 1]@));
                }
            }
            assert forall|t: Seq<char>| land_set(after).contains(t) <==> land_set(before).insert(
                name@,
            ).contains(t) by {
                if land_set(after).contains(t) {
                    let k = choose|k: int| 0 <= k < after.len() && #[trigger] after[k]@ == t;
                    if k < i {
                        assert(before[k]@ == t);
                    } else if k > i {
                        assert(before[k - 1]@ == t);
                    }
                }
                if land_set(before).contains(t) {
                    let k = choose|k: int| 0 <= k < before.len() && #[trigger] before[k]@ == t;
                    if k < i {
                        assert(after[k]@ == t);
                    } else {
                        assert(after[k + 1]@ == t);
                    }
                }
                if t == name@ {
                    assert(after[i as int]@ == t);
                }
            }
            assert(land_set(after) =~= land_set(before).insert(name@));
        }
    }
}

/// Adds every name of `other` to `lands`.
pub fn union_lands(lands: &mut Vec<String>, other: &Vec<String>)
    requires
        ascending(old(lands)@),
    ensures
        ascending(final(lands)@),
        land_set(final(lands)@) == land_set(old(lands)@).union(land_set(other@)),
{
    let mut i: usize = 0;
    while i < other.len()
        invariant
            i <= other.len(),
            ascending(lands@),
            land_set(lands@) == land_set(old(lands)@).union(land_set(other@.take(i as int))),
        decreases other.len() - i,
    {
        let ghost before = lands@;
        insert_land(lands, &other[i]);
        proof {
            let done = other@.take(i as int);
            let more = other@.take(i + 1);
            assert forall|t: Seq<char>| land_set(more).contains(t) <==> land_set(done).insert(
                other@[i as int]@,
            ).contains(t) by {
                if land_set(more).contains(t) {
                    let k = choose|k: int| 0 <= k < more.len() && #[trigger] more[k]@ == t;
                    if k < i {
                        assert(done[k]@ == t);
                    }
                }
                if land_set(done).contains(t) {
                    let k = choose|k: int| 0 <= k < done.len() && #[trigger] done[k]@ == t;
                    assert(more[k]@ == t);
                }
                if t == other@[i as int]@ {
                    assert(more[i as int]@ == t);
                }
            }
            assert(land_set(more) =~= land_set(done).insert(other@[i as int]@));
            assert(land_set(lands@) =~= land_set(old(lands)@).union(land_set(more)));
        }
        i += 1;
    }
    proof {
        assert(other@.take(other.len() as int) =~= other@);
        assert(land_set(old(lands)@).union(land_set(other@.take(0))) =~= land_set(old(lands)@)) by {
            assert(land_set(other@.take(0)) =~= Set::<Seq<char>>::empty());
        }
    }
}

} // verus!
