//! Lists of node ids: strictly ascending lists that stand for sets, and first positions.

use vstd::prelude::*;

verus! {

/// Whether `s` lists its ids in strictly ascending order.
pub open spec fn ascending(s: Seq<usize>) -> bool {
    forall|i: int, j: int| 0 <= i < j < s.len() ==> s[i] < s[j]
}

/// Two ascending lists that hold the same ids are one list.
pub proof fn lemma_ascending_unique(a: Seq<usize>, b: Seq<usize>)
    requires
        ascending(a),
        ascending(b),
        forall|x: usize| a.contains(x) <==> b.contains(x),
    ensures
        a == b,
    decreases a.len(),
{
    if a.len() == 0 {
        if b.len() > 0 {
            assert(b.contains(b[0]));
        }
        assert(a =~= b);
    } else {
        let top = a.last();
        assert(a.contains(a[a.len() - 1]));
        assert(b.contains(top));
        let other_top = b.last();
        assert(b.contains(b[b.len() - 1]));
        assert(a.contains(other_top));
        let j = choose|j: int| 0 <= j < b.len() && b[j] == top;
        let i = choose|i: int| 0 <= i < a.len() && a[i] == other_top;
        assert(top == other_top);
        let a0 = a.drop_last();
        let b0 = b.drop_last();
        assert forall|x: usize| a0.contains(x) <==> b0.contains(x) by {
            if a0.contains(x) {
                let k = choose|k: int| 0 <= k < a0.len() && a0[k] == x;
                assert(a[k] == x);
                assert(a.contains(x));
                let m = choose|m: int| 0 <= m < b.len() && b[m] == x;
                assert(b0[m] == x);
            }
            if b0.contains(x) {
                let k = choose|k: int| 0 <= k < b0.len() && b0[k] == x;
                assert(b[k] == x);
                assert(b.contains(x));
                let m = choose|m: int| 0 <= m < a.len() && a[m] == x;
                assert(a0[m] == x);
            }
        }
        lemma_ascending_unique(a0, b0);
        assert(a =~= a0.push(top));
        assert(b =~= b0.push(other_top));
    }
}

/// The index of the first occurrence of `x` in `s` at or after `from`,
/// and `s.len()` where there is none.
pub open spec fn index_from(s: Seq<usize>, x: usize, from: int) -> int
    decreases s.len() - from,
{
    if from < 0 || from >= s.len() {
        s.len() as int
    } else if s[from] == x {
        from
    } else {
        index_from(s, x, from + 1)
    }
}

/// The index of the first occurrence of `x` in `s`, and `s.len()` where `s` lacks `x`.
pub open spec fn position(s: Seq<usize>, x: usize) -> int {
    index_from(s, x, 0)
}

/// `index_from` finds an occurrence of `x`, and none lies between `from` and it.
pub proof fn lemma_index_from(s: Seq<usize>, x: usize, from: int)
    requires
        0 <= from <= s.len(),
    ensures
        from <= index_from(s, x, from) <= s.len(),
        index_from(s, x, from) < s.len() ==> s[index_from(s, x, from)] == x,
        forall|j: int| from <= j < index_from(s, x, from) ==> s[j] != x,
    decreases s.len() - from,
{
    if from < s.len() && s[from] != x {
        lemma_index_from(s, x, from + 1);
    }
}

/// `position` is in range exactly when `s` holds `x`, and then it is the first such index.
pub proof fn lemma_position(s: Seq<usize>, x: usize)
    ensures
        0 <= position(s, x) <= s.len(),
        position(s, x) < s.len() <==> s.contains(x),
        position(s, x) < s.len() ==> s[position(s, x)] == x,
        forall|j: int| 0 <= j < position(s, x) ==> s[j] != x,
{
    lemma_index_from(s, x, 0);
}

/// The first index at which `v` holds `x`, if any.
pub fn find(v: &Vec<usize>, x: usize) -> (r: Option<usize>)
    ensures
        match r {
            Some(i) => i < v.len() && i == position(v@, x),
            None => position(v@, x) == v.len(),
        },
{
    let mut i: usize = 0;
    while i < v.len()
        invariant
            i <= v.len(),
            index_from(v@, x, i as int) == position(v@, x),
        decreases v.len() - i,
    {
        if v[i] == x {
            return Some(i);
        }
        i += 1;
    }
    None
}

/// Appends `src[from..to]` to `dst`.
pub fn append_range(dst: &mut Vec<usize>, src: &Vec<usize>, from: usize, to: usize)
    requires
        from <= to <= src.len(),
    ensures
        final(dst)@ == old(dst)@ + src@.subrange(from as int, to as int),
{
    let mut i: usize = from;
    while i < to
        invariant
            from <= i <= to <= src.len(),
            dst@ == old(dst)@ + src@.subrange(from as int, i as int),
        decreases to - i,
    {
        dst.push(src[i]);
        i += 1;
        assert(dst@ =~= old(dst)@ + src@.subrange(from as int, i as int));
    }
}

/// Puts `x` into the ascending list `v` at its place, unless `v` holds it already.
pub fn insert_ascending(v: &mut Vec<usize>, x: usize)
    requires
        ascending(old(v)@),
    ensures
        ascending(final(v)@),
        forall|y: usize| final(v)@.contains(y) <==> (old(v)@.contains(y) || y == x),
        old(v)@.contains(x) ==> final(v)@ == old(v)@,
{
    let mut i: usize = 0;
    while i < v.len() && v[i] < x
        invariant
            i <= v.len(),
            v@ == old(v)@,
            forall|j: int| 0 <= j < i ==> v@[j] < x,
        decreases v.len() - i,
    {
        i += 1;
    }
    if i < v.len() && v[i] == x {
        return;
    }
    v.insert(i, x);
    proof {
        let before = old(v)@;
        let after = v@;
        assert(!before.contains(x));
        assert(after[i as int] == x);
        assert forall|y: usize| after.contains(y) <==> (before.contains(y) || y == x) by {
            if after.contains(y) {
                let k = choose|k: int| 0 <= k < after.len() && after[k] == y;
                if k < i {
                    assert(before[k] == y);
                } else if k > i {
                    assert(before[k - 1] == y);
                }
            }
            if before.contains(y) {
                let k = choose|k: int| 0 <= k < before.len() && before[k] == y;
                if k < i {
                    assert(after[k] == y);
                } else {
                    assert(after[k + 1] == y);
                }
            }
        }
    }
}

} // verus!
