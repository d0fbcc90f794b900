use vstd::prelude::*;
use rand_xoshiro::Xoshiro256PlusPlus;
use crate::rng::{draw_below, draw_bool};

verus! {

/// `succ` maps `{0, ..., n-1}` onto itself one to one.
pub open spec fn is_permutation(succ: Seq<usize>, n: nat) -> bool {
    &&& succ.len() == n
    &&& forall|i: int| 0 <= i < n ==> #[trigger] succ[i] < n
    &&& forall|i: int, j: int|
        0 <= i < n && 0 <= j < n && #[trigger] succ[i] == #[trigger] succ[j] ==> i == j
    &&& forall|k: int| 0 <= k < n ==> #[trigger] has_preimage(succ, k)
}

/// Some index of `succ` maps to `k`.
pub open spec fn has_preimage(succ: Seq<usize>, k: int) -> bool {
    exists|i: int| 0 <= i < succ.len() && succ[i] == k
}

proof fn lemma_remove_distinct(s: Seq<usize>, i: int)
    requires
        s.no_duplicates(),
        0 <= i < s.len(),
    ensures
        s.remove(i).no_duplicates(),
        forall|x: usize| #[trigger] s.remove(i).contains(x) <==> (s.contains(x) && x != s[i]),
{
    let r = s.remove(i);
    assert forall|a: int| 0 <= a < r.len() implies r[a] == (if a < i { s[a] } else { s[a + 1] }) by {}
    assert forall|x: usize| #[trigger] r.contains(x) <==> (s.contains(x) && x != s[i]) by {
        if r.contains(x) {
            let a = choose|a: int| 0 <= a < r.len() && r[a] == x;
            if a < i {
                assert(s[a] == x);
            } else {
                assert(s[a + 1] == x);
            }
        }
        if s.contains(x) && x != s[i] {
            let b = choose|b: int| 0 <= b < s.len() && s[b] == x;
            if b < i {
                assert(r[b] == x);
            } else {
                assert(b != i);
                assert(r[b - 1] == x);
            }
        }
    }
}

/// Draws the successor of every species: a permutation of `{0, ..., n-1}` built chain by
/// chain. The open chain starts at the lowest index that has no successor yet (its anchor);
/// each step draws `r` below one more than the number of indices still free. `r == 0` closes
/// the chain back onto its anchor (a chain of one index is a fixed point); otherwise the chain
/// is extended to the `r`-th free index in ascending order.
pub fn draw_successors(n: usize, rng: &mut Xoshiro256PlusPlus) -> (succ: Vec<usize>)
    requires
        n >= 1,
    ensures
        is_permutation(succ@, n as nat),
{
    let mut succ: Vec<usize> = Vec::with_capacity(n);
    let mut open: Vec<usize> = Vec::with_capacity(n);
    let mut k: usize = 0;
    while k < n
        invariant
            k <= n,
            succ@.len() == k,
            forall|a: int| 0 <= a < k ==> #[trigger] succ@[a] == n,
            open@.len() == if k == 0 { 0 } else { k - 1 },
            forall|a: int| 0 <= a < open@.len() ==> #[trigger] open@[a] == a + 1,
        decreases n - k,
    {
        succ.push(n);
        if k > 0 {
            open.push(k);
        }
        k += 1;
    }
    let mut anchor: usize = 0;
    let mut tail: usize = 0;
    let mut done = false;
    let ghost mut pre: Seq<int> = Seq::new(n as nat, |j: int| 0);
    proof {
        assert forall|a: int, b: int| 0 <= a < open@.len() && 0 <= b < open@.len() && a != b
            implies open@[a] != open@[b] by {
            assert(open@[a] == a + 1 && open@[b] == b + 1);
        }
        assert forall|x: usize| open@.contains(x) <==> 1 <= x < n by {
            if 1 <= x < n {
                assert(open@[x - 1] == x);
            }
        }
    }
    while !done
        invariant
            succ@.len() == n,
            anchor < n,
            tail < n,
            pre.len() == n,
            open@.no_duplicates(),
            open@.len() < n,
            forall|a: int| 0 <= a < open@.len() ==> #[trigger] open@[a] < n,
            !open@.contains(anchor),
            !open@.contains(tail),
            !done ==> forall|j: int|
                0 <= j < n ==> (#[trigger] succ@[j] == n <==> (open@.contains(j as usize) || j == tail)),
            done ==> open@.len() == 0 && forall|j: int| 0 <= j < n ==> #[trigger] succ@[j] < n,
            forall|j: int| 0 <= j < n && #[trigger] succ@[j] != n ==> succ@[j] < n
                && !open@.contains(succ@[j]) && (!done ==> succ@[j] != anchor),
            forall|a: int, b: int|
                0 <= a < n && 0 <= b < n && succ@[a] != n && #[trigger] succ@[a]
                    == #[trigger] succ@[b] ==> a == b,
            forall|j: int|
                0 <= j < n ==> open@.contains(j as usize) || (j == anchor && !done) || (0
                    <= #[trigger] pre[j] < n && succ@[pre[j]] == j),
        decreases open@.len() + if done { 0int } else { 1int },
    {
        let r = draw_below(rng, open.len() + 1);
        if r == 0 {
            succ.set(tail, anchor);
            proof {
                pre = pre.update(anchor as int, tail as int);
            }
            if open.len() == 0 {
                done = true;
            } else {
                proof {
                    lemma_remove_distinct(open@, 0);
                }
                let a = open.remove(0);
                anchor = a;
                tail = a;
            }
        } else {
            proof {
                lemma_remove_distinct(open@, r - 1);
            }
            let t = open.remove(r - 1);
            succ.set(tail, t);
            proof {
                pre = pre.update(t as int, tail as int);
            }
            tail = t;
        }
    }
    proof {
        assert forall|k: int| 0 <= k < n implies #[trigger] has_preimage(succ@, k) by {
            assert(succ@[pre[k]] == k);
        }
    }
    succ
}

/// Some entry of `v` is `true`.
pub open spec fn has_true(v: Seq<bool>) -> bool {
    exists|i: int| 0 <= i < v.len() && v[i]
}

/// Draws a catalyst set over `n` species: each species is a catalyst with a fair coin, and a
/// draw that names no catalyst is thrown away whole and drawn again. Should `u64::MAX`
/// draws in a row all come out empty, every species is taken as a catalyst.
pub fn draw_catalysts(n: usize, rng: &mut Xoshiro256PlusPlus) -> (c: Vec<bool>)
    requires
        n >= 1,
    ensures
        c@.len() == n,
        has_true(c@),
{
    let mut attempts: u64 = 0;
    while attempts < u64::MAX
        decreases u64::MAX - attempts,
    {
        let mut c: Vec<bool> = Vec::with_capacity(n);
        let mut found = false;
        let mut i: usize = 0;
        while i < n
            invariant
                i <= n,
                c@.len() == i,
                found <==> has_true(c@),
            decreases n - i,
        {
            let b = draw_bool(rng);
            proof {
                if has_true(c@) {
                    let w = choose|w: int| 0 <= w < c@.len() && c@[w];
                    assert(c@.push(b)[w]);
                }
                if b {
                    assert(c@.push(b)[i as int]);
                }
                if has_true(c@.push(b)) {
                    let w = choose|w: int| 0 <= w < c@.push(b).len() && c@.push(b)[w];
                    if w < i {
                        assert(c@[w]);
                    }
                }
            }
            if b {
                found = true;
            }
            c.push(b);
            i += 1;
        }
        if found {
            return c;
        }
        attempts += 1;
    }
    let mut all: Vec<bool> = Vec::with_capacity(n);
    let mut i: usize = 0;
    while i < n
        invariant
            i <= n,
            all@.len() == i,
            forall|a: int| 0 <= a < i ==> #[trigger] all@[a],
        decreases n - i,
    {
        all.push(true);
        i += 1;
    }
    assert(all@[0]);
    all
}

/// The chemistry of `n` species, as a successor table and a catalyst table.
pub open spec fn is_chemistry(succ: Seq<usize>, catalysts: Seq<Vec<bool>>, n: nat) -> bool {
    &&& is_permutation(succ, n)
    &&& catalysts.len() == n
    &&& forall|j: int| 0 <= j < n ==> #[trigger] catalysts_fit(succ, catalysts, j, n)
}

/// Species `j` has no catalyst if it is its own successor, and otherwise a catalyst entry
/// for every species with at least one of them set.
pub open spec fn catalysts_fit(succ: Seq<usize>, catalysts: Seq<Vec<bool>>, j: int, n: nat) -> bool {
    if succ[j] == j {
        catalysts[j]@.len() == 0
    } else {
        catalysts[j]@.len() == n && has_true(catalysts[j]@)
    }
}

/// Draws the successor permutation, then a catalyst set for every species that is not its
/// own successor; a fixed point gets an empty set.
pub fn new_chemistry(type_count: usize, rule_rng: &mut Xoshiro256PlusPlus) -> (r: (
    Vec<usize>,
    Vec<Vec<bool>>,
))
    requires
        type_count >= 1,
    ensures
        is_chemistry(r.0@, r.1@, type_count as nat),
{
    let converts_tos = draw_successors(type_count, rule_rng);
    let mut catalysts_of_type: Vec<Vec<bool>> = Vec::with_capacity(type_count);
    let mut j: usize = 0;
    while j < type_count
        invariant
            j <= type_count,
            is_permutation(converts_tos@, type_count as nat),
            catalysts_of_type@.len() == j,
            forall|a: int|
                0 <= a < j ==> #[trigger] catalysts_fit(
                    converts_tos@,
                    catalysts_of_type@,
                    a,
                    type_count as nat,
                ),
        decreases type_count - j,
    {
        let ghost prev = catalysts_of_type@;
        if converts_tos[j] == j {
            catalysts_of_type.push(Vec::new());
        } else {
            let c = draw_catalysts(type_count, rule_rng);
            catalysts_of_type.push(c);
            assert(catalysts_of_type@[j as int] == c);
        }
        assert forall|a: int| 0 <= a < j + 1 implies #[trigger] catalysts_fit(
            converts_tos@,
            catalysts_of_type@,
            a,
            type_count as nat,
        ) by {
            if a < j {
                assert(catalysts_of_type@[a] == prev[a]);
                assert(catalysts_fit(converts_tos@, prev, a, type_count as nat));
            }
        }
        j += 1;
    }
    (converts_tos, catalysts_of_type)
}

} // verus!
