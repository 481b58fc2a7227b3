//! The order of directory entries in a tree: git's order, a stable sort by
//! name in which a directory's name counts with a trailing `/`.

use vstd::prelude::*;

use crate::text::chars_of;

verus! {

/// Whether text `a` sorts strictly before text `b`: code point by code point,
/// a proper prefix first. This is the order of `str`, since UTF-8 keeps the
/// order of code points.
pub open spec fn text_lt(a: Seq<char>, b: Seq<char>) -> bool
    decreases a.len(),
{
    if a.len() == 0 {
        b.len() > 0
    } else if b.len() == 0 {
        false
    } else if a[0] != b[0] {
        a[0] < b[0]
    } else {
        text_lt(a.drop_first(), b.drop_first())
    }
}

/// No text sorts before itself, and of two texts at most one sorts first.
pub proof fn lemma_text_lt_asym(a: Seq<char>, b: Seq<char>)
    ensures
        text_lt(a, b) ==> !text_lt(b, a),
        !text_lt(a, a),
    decreases a.len(),
{
    if a.len() > 0 && b.len() > 0 {
        lemma_text_lt_asym(a.drop_first(), b.drop_first());
    }
    if a.len() > 0 {
        lemma_text_lt_asym(a.drop_first(), a.drop_first());
    }
}

/// Of two different texts, one sorts first.
pub proof fn lemma_text_lt_total(a: Seq<char>, b: Seq<char>)
    ensures
        a != b ==> text_lt(a, b) || text_lt(b, a),
    decreases a.len(),
{
    if a.len() > 0 && b.len() > 0 {
        lemma_text_lt_total(a.drop_first(), b.drop_first());
        if a[0] == b[0] && a.drop_first() == b.drop_first() {
            assert forall|i: int| 0 <= i < a.len() implies a[i] == b[i] by {
                if i > 0 {
                    assert(a[i] == a.drop_first()[i - 1]);
                    assert(b[i] == b.drop_first()[i - 1]);
                }
            }
            assert(a =~= b);
        }
    } else if a.len() == 0 && b.len() == 0 {
        assert(a =~= b);
    }
}

/// Sorting first is transitive.
pub proof fn lemma_text_lt_trans(a: Seq<char>, b: Seq<char>, c: Seq<char>)
    ensures
        text_lt(a, b) && text_lt(b, c) ==> text_lt(a, c),
    decreases a.len(),
{
    if a.len() > 0 && b.len() > 0 && c.len() > 0 {
        lemma_text_lt_trans(a.drop_first(), b.drop_first(), c.drop_first());
    }
}

/// `text_lt` is a strict total order.
pub proof fn lemma_text_lt_order(a: Seq<char>, b: Seq<char>, c: Seq<char>)
    ensures
        !text_lt(a, a),
        text_lt(a, b) ==> !text_lt(b, a),
        a != b ==> text_lt(a, b) || text_lt(b, a),
        text_lt(a, b) && text_lt(b, c) ==> text_lt(a, c),
{
    lemma_text_lt_asym(a, b);
    lemma_text_lt_total(a, b);
    lemma_text_lt_trans(a, b, c);
}

/// Whether text `a` sorts strictly before text `b`.
fn chars_lt(a: &[char], b: &[char]) -> (r: bool)
    ensures
        r == text_lt(a@, b@),
{
    let mut i: usize = 0;
    assert(a@.skip(0) =~= a@);
    assert(b@.skip(0) =~= b@);
    while i < a.len() && i < b.len() && a[i] == b[i]
        invariant
            i <= a@.len(),
            i <= b@.len(),
            text_lt(a@, b@) == text_lt(a@.skip(i as int), b@.skip(i as int)),
        decreases a.len() - i,
    {
        assert(a@.skip(i as int).drop_first() =~= a@.skip(i + 1));
        assert(b@.skip(i as int).drop_first() =~= b@.skip(i + 1));
        i = i + 1;
    }
    if i == a.len() {
        assert(a@.skip(i as int).len() == 0);
        i < b.len()
    } else if i == b.len() {
        false
    } else {
        assert(a@.skip(i as int)[0] == a@[i as int]);
        assert(b@.skip(i as int)[0] == b@[i as int]);
        a[i] < b[i]
    }
}

/// The key by which git sorts a tree entry: its name, followed by `/` for a
/// directory.
pub open spec fn tree_key(name: Seq<char>, is_dir: bool) -> Seq<char> {
    if is_dir {
        name.push('/')
    } else {
        name
    }
}

/// The sort keys of directory entries given as (name, is a directory).
pub open spec fn keys_view(entries: Seq<(String, bool)>) -> Seq<Seq<char>> {
    Seq::new(entries.len(), |i: int| tree_key(entries[i].0@, entries[i].1))
}

/// `order` lists each index of `keys` exactly once, sorted by key, with equal
/// keys in their original order: what a stable sort by key gives.
pub open spec fn stable_sorted_order(keys: Seq<Seq<char>>, order: Seq<usize>) -> bool {
    &&& order.len() == keys.len()
    &&& forall|i: int| 0 <= i < order.len() ==> #[trigger] order[i] < keys.len()
    &&& forall|i: int, j: int|
        0 <= i < order.len() && 0 <= j < order.len() && i != j ==> order[i] != order[j]
    &&& forall|i: int, j: int|
        #![trigger order[i], order[j]]
        0 <= i < j < order.len() ==> !text_lt(keys[order[j] as int], keys[order[i] as int])
    &&& forall|i: int, j: int|
        #![trigger order[i], order[j]]
        0 <= i < j < order.len() && keys[order[i] as int] == keys[order[j] as int] ==> order[i]
            < order[j]
}

/// The order in which the entries of a directory, given as (name, is a
/// directory), go into its tree: git's order, a stable sort by name in which
/// a directory's name is compared as if it ended in `/`.
pub fn sorted_order(keys: &[(String, bool)]) -> (order: Vec<usize>)
    ensures
        stable_sorted_order(keys_view(keys@), order@),
{
    let ghost kv = keys_view(keys@);
    let mut cs: Vec<Vec<char>> = Vec::new();
    let mut m: usize = 0;
    while m < keys.len()
        invariant
            m <= keys@.len(),
            kv == keys_view(keys@),
            cs@.len() == m,
            forall|q: int| 0 <= q < m ==> #[trigger] cs@[q]@ == kv[q],
        decreases keys.len() - m,
    {
        let mut k = chars_of(keys[m].0.as_str());
        if keys[m].1 {
            k.push('/');
        }
        cs.push(k);
        m = m + 1;
    }
    let mut order: Vec<usize> = Vec::new();
    let mut i: usize = 0;
    while i < keys.len()
        invariant
            i <= keys@.len(),
            kv == keys_view(keys@),
            cs@.len() == keys@.len(),
            forall|q: int| 0 <= q < keys@.len() ==> #[trigger] cs@[q]@ == kv[q],
            order@.len() == i,
            forall|a: int| 0 <= a < order@.len() ==> #[trigger] order@[a] < i,
            forall|a: int, b: int|
                0 <= a < order@.len() && 0 <= b < order@.len() && a != b ==> order@[a]
                    != order@[b],
            forall|a: int, b: int|
                #![trigger order@[a], order@[b]]
                0 <= a < b < order@.len() ==> !text_lt(kv[order@[b] as int], kv[order@[a] as int]),
            forall|a: int, b: int|
                #![trigger order@[a], order@[b]]
                0 <= a < b < order@.len() && kv[order@[a] as int] == kv[order@[b] as int]
                    ==> order@[a] < order@[b],
        decreases keys.len() - i,
    {
        let ki = &cs[i];
        let mut p: usize = 0;
        while p < order.len() && !chars_lt(ki.as_slice(), cs[order[p]].as_slice())
            invariant
                p <= order@.len(),
                ki@ == kv[i as int],
                cs@.len() == keys@.len(),
                forall|q: int| 0 <= q < keys@.len() ==> #[trigger] cs@[q]@ == kv[q],
                forall|a: int| 0 <= a < order@.len() ==> #[trigger] order@[a] < i,
                i < keys@.len(),
                forall|a: int| 0 <= a < p ==> !text_lt(kv[i as int], kv[#[trigger] order@[a] as int]),
            decreases order.len() - p,
        {
            p = p + 1;
        }
        let ghost old_order = order@;
        proof {
            assert forall|a: int| p <= a < old_order.len() implies text_lt(
                kv[i as int],
                kv[#[trigger] old_order[a] as int],
            ) by {
                let kp = kv[old_order[p as int] as int];
                let ka = kv[old_order[a] as int];
                assert(text_lt(kv[i as int], kp));
                if a > p {
                    assert(!text_lt(ka, kp));
                    lemma_text_lt_order(kv[i as int], kp, ka);
                    lemma_text_lt_order(kp, ka, kv[i as int]);
                }
            }
        }
        order.insert(p, i);
        proof {
            let o = order@;
            assert(o == old_order.insert(p as int, i));
            assert forall|a: int| 0 <= a < o.len() implies #[trigger] o[a] < i + 1 by {
                if a < p {
                    assert(o[a] == old_order[a]);
                } else if a > p {
                    assert(o[a] == old_order[a - 1]);
                }
            }
            assert forall|a: int, b: int|
                0 <= a < o.len() && 0 <= b < o.len() && a != b implies o[a] != o[b] by {
                if a != p && b != p {
                    let a2 = if a < p {
                        a
                    } else {
                        a - 1
                    };
                    let b2 = if b < p {
                        b
                    } else {
                        b - 1
                    };
                    assert(o[a] == old_order[a2]);
                    assert(o[b] == old_order[b2]);
                } else if a == p {
                    let b2 = if b < p {
                        b
                    } else {
                        b - 1
                    };
                    assert(o[b] == old_order[b2]);
                } else {
                    let a2 = if a < p {
                        a
                    } else {
                        a - 1
                    };
                    assert(o[a] == old_order[a2]);
                }
            }
            assert forall|a: int, b: int|
                #![trigger o[a], o[b]]
                0 <= a < b < o.len() implies !text_lt(kv[o[b] as int], kv[o[a] as int]) && (kv[o[a]
                    as int] == kv[o[b] as int] ==> o[a] < o[b]) by {
                let a2 = if a < p {
                    a
                } else {
                    a - 1
                };
                let b2 = if b < p {
                    b
                } else {
                    b - 1
                };
                if a != p && b != p {
                    assert(o[a] == old_order[a2]);
                    assert(o[b] == old_order[b2]);
                    assert(a2 < b2);
                } else if a == p {
                    assert(o[b] == old_order[b2]);
                    assert(o[a] == i);
                    assert(text_lt(kv[i as int], kv[old_order[b2] as int]));
                    lemma_text_lt_order(kv[i as int], kv[old_order[b2] as int], kv[i as int]);
                } else {
                    assert(o[a] == old_order[a2]);
                    assert(o[b] == i);
                    assert(!text_lt(kv[i as int], kv[old_order[a2] as int]));
                }
            }
        }
        i = i + 1;
    }
    order
}

} // verus!
