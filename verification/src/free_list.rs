//! The free list as mathematics: a chain of entry indices that starts at a head index,
//! follows one link per entry and ends at the sentinel, the index one past the last entry.

use vstd::prelude::*;

verus! {

/// The index that stands for "no entry": the number of entries.
pub open spec fn sentinel(next: Seq<usize>) -> usize {
    next.len() as usize
}

/// What the link of the `i`-th entry of the chain `s` has to be: the entry after it, or the
/// sentinel `end` for the last one.
pub open spec fn successor(s: Seq<usize>, i: int, end: usize) -> usize {
    if i + 1 < s.len() {
        s[i + 1]
    } else {
        end
    }
}

/// `s` is the free list that `head` and the links `next` spell out: `head` is its first
/// entry, the link of each entry is the entry after it, the link of the last entry is the
/// sentinel, and no entry occurs twice.
pub open spec fn is_list(next: Seq<usize>, head: usize, s: Seq<usize>) -> bool {
    &&& next.len() <= usize::MAX
    &&& s.no_duplicates()
    &&& head == successor(s, -1, sentinel(next))
    &&& forall|i: int|
        0 <= i < s.len() ==> (#[trigger] s[i]) < next.len() && next[s[i] as int] == successor(
            s,
            i,
            sentinel(next),
        )
}

/// The entries met when following the links from `from` for at most `fuel` steps, stopping
/// at the first index that is no entry.
pub open spec fn walk(next: Seq<usize>, from: usize, fuel: nat) -> Seq<usize>
    decreases fuel,
{
    if fuel == 0 || from >= next.len() {
        Seq::empty()
    } else {
        seq![from] + walk(next, next[from as int], (fuel - 1) as nat)
    }
}

/// A sequence of distinct indices below `n` has at most `n` members.
pub proof fn lemma_distinct_bounded(s: Seq<usize>, n: nat)
    requires
        s.no_duplicates(),
        forall|i: int| 0 <= i < s.len() ==> (#[trigger] s[i]) < n,
    ensures
        s.len() <= n,
{
    let ints = s.map_values(|x: usize| x as int);
    assert(ints.no_duplicates());
    ints.unique_seq_to_set();
    vstd::set_lib::lemma_int_range(0, n as int);
    assert(ints.to_set().subset_of(vstd::set_lib::set_int_range(0, n as int))) by {
        assert forall|x: int| ints.to_set().contains(x) implies vstd::set_lib::set_int_range(
            0,
            n as int,
        ).contains(x) by {
            let i = choose|i: int| 0 <= i < ints.len() && ints[i] == x;
            assert(ints[i] == s[i] as int);
        }
    }
    vstd::set_lib::lemma_len_subset(ints.to_set(), vstd::set_lib::set_int_range(0, n as int));
}

/// A free list never has more members than there are entries.
pub proof fn lemma_list_bounded(next: Seq<usize>, head: usize, s: Seq<usize>)
    requires
        is_list(next, head, s),
    ensures
        s.len() <= next.len(),
{
    lemma_distinct_bounded(s, next.len());
}

/// Walking the links from any member of a free list visits the rest of the list in order
/// and then stops at the sentinel.
proof fn lemma_walk_from(next: Seq<usize>, head: usize, s: Seq<usize>, k: int, fuel: nat)
    requires
        is_list(next, head, s),
        0 <= k <= s.len(),
        fuel >= s.len() - k,
    ensures
        walk(next, successor(s, k - 1, sentinel(next)), fuel) == s.skip(k),
    decreases s.len() - k,
{
    let from = successor(s, k - 1, sentinel(next));
    if k == s.len() {
        assert(from == sentinel(next));
        assert(walk(next, from, fuel) =~= s.skip(k));
    } else {
        assert(from == s[k]);
        assert(s[k] < next.len());
        assert(next[s[k] as int] == successor(s, k, sentinel(next)));
        lemma_walk_from(next, head, s, k + 1, (fuel - 1) as nat);
        assert(walk(next, from, fuel) == seq![from] + walk(
            next,
            next[from as int],
            (fuel - 1) as nat,
        ));
        assert(seq![from] + s.skip(k + 1) =~= s.skip(k));
    }
}

/// Walking the links from the head, with a step for every entry of the arena, visits exactly
/// the free list: each free entry once, in order.
pub proof fn lemma_walk_is_list(next: Seq<usize>, head: usize, s: Seq<usize>)
    requires
        is_list(next, head, s),
    ensures
        walk(next, head, next.len()) == s,
        walk(next, head, next.len()).no_duplicates(),
{
    lemma_list_bounded(next, head, s);
    lemma_walk_from(next, head, s, 0, next.len());
    assert(s.skip(0) =~= s);
}

/// The head and the links determine the free list.
pub proof fn lemma_list_unique(next: Seq<usize>, head: usize, s1: Seq<usize>, s2: Seq<usize>)
    requires
        is_list(next, head, s1),
        is_list(next, head, s2),
    ensures
        s1 == s2,
{
    lemma_walk_is_list(next, head, s1);
    lemma_walk_is_list(next, head, s2);
}

/// Linking an entry that is not on the list to the head and making it the new head puts it
/// in front of the list and leaves the rest as it was.
pub proof fn lemma_push(next: Seq<usize>, head: usize, s: Seq<usize>, idx: usize)
    requires
        is_list(next, head, s),
        idx < next.len(),
        !s.contains(idx),
    ensures
        is_list(next.update(idx as int, head), idx, seq![idx] + s),
{
    let next2 = next.update(idx as int, head);
    let s2 = seq![idx] + s;
    assert(s2.no_duplicates()) by {
        assert forall|i: int, j: int| 0 <= i < s2.len() && 0 <= j < s2.len() && i != j implies s2[i]
            != s2[j] by {
            if i > 0 {
                assert(s2[i] == s[i - 1]);
            }
            if j > 0 {
                assert(s2[j] == s[j - 1]);
            }
        }
    }
    assert forall|i: int| 0 <= i < s2.len() implies (#[trigger] s2[i]) < next2.len()
        && next2[s2[i] as int] == successor(s2, i, sentinel(next2)) by {
        if i > 0 {
            assert(s2[i] == s[i - 1]);
            assert(s[i - 1] != idx);
            if i + 1 < s2.len() {
                assert(s2[i + 1] == s[i]);
            }
        } else {
            if s.len() > 0 {
                assert(s2[1] == s[0]);
            }
        }
    }
}

/// Making the link of the first entry the new head takes that entry off the list and leaves
/// the rest as it was.
pub proof fn lemma_pop(next: Seq<usize>, head: usize, s: Seq<usize>)
    requires
        is_list(next, head, s),
        s.len() > 0,
    ensures
        head == s[0],
        head < next.len(),
        is_list(next, next[head as int], s.drop_first()),
        !s.drop_first().contains(head),
{
    let s2 = s.drop_first();
    assert(s[0] < next.len());
    assert forall|i: int| 0 <= i < s2.len() implies (#[trigger] s2[i]) < next.len()
        && next[s2[i] as int] == successor(s2, i, sentinel(next)) by {
        assert(s2[i] == s[i + 1]);
        if i + 1 < s2.len() {
            assert(s2[i + 1] == s[i + 2]);
        }
    }
    assert(s2.no_duplicates()) by {
        assert forall|i: int, j: int| 0 <= i < s2.len() && 0 <= j < s2.len() && i != j implies s2[i]
            != s2[j] by {
            assert(s2[i] == s[i + 1]);
            assert(s2[j] == s[j + 1]);
        }
    }
    if s2.contains(head) {
        let j = choose|j: int| 0 <= j < s2.len() && s2[j] == head;
        assert(s[j + 1] == s[0]);
    }
}

/// A link that is written for an entry off the list does not change the list.
pub proof fn lemma_link_off_list(
    next: Seq<usize>,
    head: usize,
    s: Seq<usize>,
    idx: usize,
    to: usize,
)
    requires
        is_list(next, head, s),
        idx < next.len(),
        !s.contains(idx),
    ensures
        is_list(next.update(idx as int, to), head, s),
{
    let next2 = next.update(idx as int, to);
    assert forall|i: int| 0 <= i < s.len() implies (#[trigger] s[i]) < next2.len()
        && next2[s[i] as int] == successor(s, i, sentinel(next2)) by {
        assert(s[i] != idx);
    }
}

/// The list in which every entry links to the one after it: `0, 1, .., n - 1`.
pub open spec fn ascending(n: nat) -> Seq<usize> {
    Seq::new(n, |i: int| i as usize)
}

/// With every entry linked to the one after it and the head at entry 0, the free list holds
/// all entries in ascending order.
pub proof fn lemma_ascending(next: Seq<usize>)
    requires
        next.len() <= usize::MAX,
        forall|i: int| 0 <= i < next.len() ==> next[i] == i + 1,
    ensures
        is_list(next, if next.len() == 0 { sentinel(next) } else { 0 }, ascending(next.len())),
{
    let s = ascending(next.len());
    assert forall|i: int| 0 <= i < s.len() implies (#[trigger] s[i]) < next.len()
        && next[s[i] as int] == successor(s, i, sentinel(next)) by {
        if i + 1 < s.len() {
            assert(s[i + 1] == (i + 1) as usize);
        }
    }
}

} // verus!
