//! Ordered lists of identifiers in which nothing occurs twice.

use vstd::prelude::*;

verus! {

/// The index at which an insertion lands: the requested position when it
/// lies inside the list, the end of the list otherwise.
pub open spec fn clamp_position(position: Option<usize>, len: nat) -> int {
    match position {
        Some(k) => if (k as int) <= len { k as int } else { len as int },
        None => len as int,
    }
}

/// The list without `x`; the list itself when `x` does not occur.
pub open spec fn without_id(s: Seq<usize>, x: usize) -> Seq<usize> {
    if s.contains(x) {
        s.remove(s.index_of(x))
    } else {
        s
    }
}

pub proof fn lemma_insert_id(s: Seq<usize>, k: int, x: usize)
    requires
        s.no_duplicates(),
        !s.contains(x),
        0 <= k <= s.len(),
    ensures
        s.insert(k, x).no_duplicates(),
        forall|y: usize| #[trigger] s.insert(k, x).contains(y) <==> (s.contains(y) || y == x),
{
    let t = s.insert(k, x);
    assert forall|y: usize| #[trigger] t.contains(y) <==> (s.contains(y) || y == x) by {
        if t.contains(y) {
            let j = choose|j: int| 0 <= j < t.len() && t[j] == y;
            if j < k {
                assert(s[j] == y);
            } else if j > k {
                assert(s[j - 1] == y);
            }
        }
        if s.contains(y) {
            let j = choose|j: int| 0 <= j < s.len() && s[j] == y;
            if j < k {
                assert(t[j] == y);
            } else {
                assert(t[j + 1] == y);
            }
        }
        if y == x {
            assert(t[k] == y);
        }
    }
    assert forall|i: int, j: int| 0 <= i < t.len() && 0 <= j < t.len() && i != j implies t[i]
        != t[j] by {
        let a = if i < k { i } else { i - 1 };
        let b = if j < k { j } else { j - 1 };
        if i != k && j != k {
            assert(s[a] == t[i] && s[b] == t[j]);
        } else if i == k {
            assert(s[b] == t[j]);
        } else {
            assert(s[a] == t[i]);
        }
    }
}

pub proof fn lemma_remove_at(s: Seq<usize>, k: int)
    requires
        s.no_duplicates(),
        0 <= k < s.len(),
    ensures
        s.remove(k) == without_id(s, s[k]),
        s.remove(k).no_duplicates(),
        forall|y: usize| #[trigger] s.remove(k).contains(y) <==> (s.contains(y) && y != s[k]),
{
    let t = s.remove(k);
    let x = s[k];
    assert(s.contains(x));
    assert(s.index_of(x) == k);
    assert forall|y: usize| #[trigger] t.contains(y) <==> (s.contains(y) && y != x) by {
        if t.contains(y) {
            let j = choose|j: int| 0 <= j < t.len() && t[j] == y;
            if j < k {
                assert(s[j] == y);
            } else {
                assert(s[j + 1] == y);
            }
        }
        if s.contains(y) && y != x {
            let j = choose|j: int| 0 <= j < s.len() && s[j] == y;
            if j < k {
                assert(t[j] == y);
            } else {
                assert(t[j - 1] == y);
            }
        }
    }
    assert forall|i: int, j: int| 0 <= i < t.len() && 0 <= j < t.len() && i != j implies t[i]
        != t[j] by {
        let a = if i < k { i } else { i + 1 };
        let b = if j < k { j } else { j + 1 };
        assert(s[a] == t[i] && s[b] == t[j]);
    }
}

/// Removing an identifier keeps the list free of repetitions and drops
/// exactly that identifier from it.
pub proof fn lemma_without_id(s: Seq<usize>, x: usize)
    requires
        s.no_duplicates(),
    ensures
        without_id(s, x).no_duplicates(),
        forall|y: usize| #[trigger] without_id(s, x).contains(y) <==> (s.contains(y) && y != x),
{
    if s.contains(x) {
        let k = s.index_of(x);
        lemma_remove_at(s, k);
    }
}

/// The first index at which `x` stands in `v`.
pub fn index_of_id(v: &Vec<usize>, x: usize) -> (r: Option<usize>)
    ensures
        match r {
            Some(k) => (k as int) < v@.len() && v@[k as int] == x && forall|j: int|
                0 <= j < k ==> v@[j] != x,
            None => !v@.contains(x),
        },
{
    let mut i: usize = 0;
    while i < v.len()
        invariant
            i <= v@.len(),
            forall|j: int| 0 <= j < i ==> v@[j] != x,
        decreases v@.len() - i,
    {
        if v[i] == x {
            return Some(i);
        }
        i += 1;
    }
    None
}

/// Takes `x` out of `v` and says whether it was there.
pub fn remove_id(v: &mut Vec<usize>, x: usize) -> (removed: bool)
    requires
        old(v)@.no_duplicates(),
    ensures
        removed == old(v)@.contains(x),
        final(v)@ == without_id(old(v)@, x),
        final(v)@.no_duplicates(),
        forall|y: usize| #[trigger] final(v)@.contains(y) <==> (old(v)@.contains(y) && y != x),
{
    proof {
        lemma_without_id(v@, x);
    }
    match index_of_id(v, x) {
        Some(k) => {
            proof {
                lemma_remove_at(v@, k as int);
            }
            v.remove(k);
            true
        },
        None => false,
    }
}

/// Puts `x` into `v` at the clamped position.
pub fn insert_id(v: &mut Vec<usize>, position: Option<usize>, x: usize)
    requires
        old(v)@.no_duplicates(),
        !old(v)@.contains(x),
    ensures
        final(v)@ == old(v)@.insert(clamp_position(position, old(v)@.len()), x),
        final(v)@.no_duplicates(),
        forall|y: usize| #[trigger] final(v)@.contains(y) <==> (old(v)@.contains(y) || y == x),
{
    let len: usize = v.len();
    let k: usize = match position {
        Some(p) => if p <= len { p } else { len },
        None => len,
    };
    proof {
        lemma_insert_id(v@, k as int, x);
    }
    v.insert(k, x);
}

/// A fresh vector with the same identifiers in the same order.
pub fn copy_ids(v: &Vec<usize>) -> (r: Vec<usize>)
    ensures
        r@ == v@,
{
    let mut out: Vec<usize> = Vec::new();
    let mut i: usize = 0;
    while i < v.len()
        invariant
            i <= v@.len(),
            out@ == v@.subrange(0, i as int),
        decreases v@.len() - i,
    {
        out.push(v[i]);
        i += 1;
        assert(out@ =~= v@.subrange(0, i as int));
    }
    assert(v@.subrange(0, v@.len() as int) =~= v@);
    out
}

} // verus!

verus! {

/// Appending an identifier that is new to the list keeps it free of
/// repetitions and adds exactly that identifier.
pub proof fn lemma_push_id(s: Seq<usize>, x: usize)
    requires
        s.no_duplicates(),
        !s.contains(x),
    ensures
        s.push(x).no_duplicates(),
        forall|y: usize| #[trigger] s.push(x).contains(y) <==> (s.contains(y) || y == x),
{
    assert(s.push(x) =~= s.insert(s.len() as int, x));
    lemma_insert_id(s, s.len() as int, x);
}

/// A list of distinct identifiers below `n` has at most `n` entries.
pub proof fn lemma_distinct_below(s: Seq<usize>, n: nat)
    requires
        s.no_duplicates(),
        forall|k: int| 0 <= k < s.len() ==> (#[trigger] s[k] as int) < n,
    ensures
        s.len() <= n,
    decreases n,
{
    if n == 0 {
        if s.len() > 0 {
            assert((s[0] as int) < 0);
        }
    } else {
        let top = (n - 1) as usize;
        let rest = without_id(s, top);
        lemma_without_id(s, top);
        assert forall|k: int| 0 <= k < rest.len() implies (#[trigger] rest[k] as int) < n - 1 by {
            assert(rest.contains(rest[k]));
            assert(s.contains(rest[k]));
            let j = choose|j: int| 0 <= j < s.len() && s[j] == rest[k];
            assert((s[j] as int) < n);
        }
        lemma_distinct_below(rest, (n - 1) as nat);
    }
}

} // verus!
