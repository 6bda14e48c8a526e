use vstd::prelude::*;

verus! {

/// A list of letters with a count each, every letter listed at most once.
pub open spec fn keys_unique(l: Seq<(char, u64)>) -> bool {
    forall|i: int, j: int| 0 <= i < j < l.len() ==> l[i].0 != l[j].0
}

/// The count listed for `c`, or zero where `c` is not listed.
pub open spec fn tally(l: Seq<(char, u64)>, c: char) -> nat {
    if exists|i: int| 0 <= i < l.len() && l[i].0 == c {
        l[choose|i: int| 0 <= i < l.len() && l[i].0 == c].1 as nat
    } else {
        0
    }
}

proof fn lemma_tally_at(l: Seq<(char, u64)>, k: int)
    requires
        keys_unique(l),
        0 <= k < l.len(),
    ensures
        tally(l, l[k].0) == l[k].1,
{
    let c = l[k].0;
    assert(exists|i: int| 0 <= i < l.len() && l[i].0 == c);
    let i = choose|i: int| 0 <= i < l.len() && l[i].0 == c;
    if i != k {
        if i < k {
            assert(l[i].0 != l[k].0);
        } else {
            assert(l[k].0 != l[i].0);
        }
    }
}

/// The count listed for `c`.
pub fn tally_of(l: &Vec<(char, u64)>, c: char) -> (r: u64)
    requires
        keys_unique(l@),
    ensures
        r == tally(l@, c),
{
    let mut i: usize = 0;
    while i < l.len()
        invariant
            keys_unique(l@),
            i <= l.len(),
            forall|j: int| 0 <= j < i ==> l@[j].0 != c,
        decreases l.len() - i,
    {
        if l[i].0 == c {
            proof {
                lemma_tally_at(l@, i as int);
            }
            return l[i].1;
        }
        i += 1;
    }
    0
}

/// Adds one to the count of `c`.
pub fn tally_bump(l: &mut Vec<(char, u64)>, c: char)
    requires
        keys_unique(old(l)@),
        tally(old(l)@, c) < u64::MAX,
    ensures
        keys_unique(final(l)@),
        forall|d: char| #[trigger] tally(final(l)@, d) == tally(old(l)@, d) + if d == c {
            1nat
        } else {
            0nat
        },
{
    let ghost before = l@;
    let mut i: usize = 0;
    while i < l.len()
        invariant
            l@ == before,
            before == old(l)@,
            keys_unique(before),
            tally(before, c) < u64::MAX,
            i <= l.len(),
            forall|j: int| 0 <= j < i ==> l@[j].0 != c,
        decreases l.len() - i,
    {
        if l[i].0 == c {
            proof {
                lemma_tally_at(before, i as int);
            }
            let v = l[i].1;
            l.set(i, (c, v + 1));
            proof {
                assert(keys_unique(l@)) by {
                    assert forall|a: int, b: int| 0 <= a < b < l@.len() implies l@[a].0
                        != l@[b].0 by {
                        assert(before[a].0 != before[b].0);
                    }
                }
                assert forall|d: char| #[trigger] tally(l@, d) == tally(before, d) + if d == c {
                    1nat
                } else {
                    0nat
                } by {
                    lemma_tally_at(l@, i as int);
                    if d != c {
                        if exists|j: int| 0 <= j < before.len() && before[j].0 == d {
                            let j = choose|j: int| 0 <= j < before.len() && before[j].0 == d;
                            lemma_tally_at(before, j);
                            lemma_tally_at(l@, j);
                        } else {
                            assert(!exists|j: int| 0 <= j < l@.len() && l@[j].0 == d) by {
                                if exists|j: int| 0 <= j < l@.len() && l@[j].0 == d {
                                    let j = choose|j: int| 0 <= j < l@.len() && l@[j].0 == d;
                                    assert(before[j].0 == d);
                                }
                            }
                        }
                    }
                }
            }
            return;
        }
        i += 1;
    }
    l.push((c, 1));
    proof {
        assert(!exists|j: int| 0 <= j < before.len() && before[j].0 == c);
        assert(keys_unique(l@));
        assert forall|d: char| #[trigger] tally(l@, d) == tally(before, d) + if d == c {
            1nat
        } else {
            0nat
        } by {
            lemma_tally_at(l@, before.len() as int);
            if d != c {
                if exists|j: int| 0 <= j < before.len() && before[j].0 == d {
                    let j = choose|j: int| 0 <= j < before.len() && before[j].0 == d;
                    lemma_tally_at(before, j);
                    lemma_tally_at(l@, j);
                } else {
                    assert(!exists|j: int| 0 <= j < l@.len() && l@[j].0 == d) by {
                        if exists|j: int| 0 <= j < l@.len() && l@[j].0 == d {
                            let j = choose|j: int| 0 <= j < l@.len() && l@[j].0 == d;
                            assert(j < before.len());
                            assert(before[j].0 == d);
                        }
                    }
                }
            }
        }
    }
}

} // verus!
