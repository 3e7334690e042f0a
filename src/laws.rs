//! Properties of building, proving and verifying, stated over the
//! mathematical model and proved.
use crate::inclusion::{combine, fold_proof, path_proof, proof_step, proof_verifies};
use crate::oracle::HashOracle;
use crate::tree::{
    leaf_level, levels_from, parent_level, right_partner, root_of_levels, tree_levels,
    tree_root,
};
use vstd::prelude::*;

verus! {

/// The oracle maps two different byte strings to the same digest.
pub open spec fn has_collision<H: HashOracle>(h: &H) -> bool {
    exists|a: Seq<u8>, b: Seq<u8>| a != b && h.spec_digest(a) == h.spec_digest(b)
}

/// Every entry of `level` is `w` bytes wide.
spec fn all_width(level: Seq<Seq<u8>>, w: nat) -> bool {
    forall|j: int| 0 <= j < level.len() ==> (#[trigger] level[j]).len() == w
}

/// Two concatenations with equally long first parts are equal only part by
/// part.
proof fn lemma_concat_injective(a: Seq<u8>, b: Seq<u8>, c: Seq<u8>, d: Seq<u8>)
    requires
        a.len() == c.len(),
        a + b == c + d,
    ensures
        a == c,
        b == d,
{
    assert((a + b).subrange(0, a.len() as int) =~= a);
    assert((c + d).subrange(0, c.len() as int) =~= c);
    assert((a + b).subrange(a.len() as int, (a + b).len() as int) =~= b);
    assert((c + d).subrange(c.len() as int, (c + d).len() as int) =~= d);
}

/// Every entry of a level made by the oracle has the oracle's width.
proof fn lemma_parent_width<H: HashOracle>(h: &H, level: Seq<Seq<u8>>)
    ensures
        all_width(parent_level(h, level), h.width()),
{
    let p = parent_level(h, level);
    assert forall|j: int| 0 <= j < p.len() implies (#[trigger] p[j]).len() == h.width() by {
        h.lemma_digest_width(level[2 * j] + level[right_partner(level.len() as int, j)]);
    }
}

/// Above a level of width two or more, the root is that of the next level.
proof fn lemma_root_from_parent<H: HashOracle>(h: &H, level: Seq<Seq<u8>>)
    requires
        level.len() > 1,
    ensures
        levels_from(h, level).drop_first() == levels_from(h, parent_level(h, level)),
        root_of_levels(levels_from(h, level)) == root_of_levels(
            levels_from(h, parent_level(h, level)),
        ),
{
    let rest = levels_from(h, parent_level(h, level));
    assert(levels_from(h, level).drop_first() =~= rest);
    assert(rest.len() >= 1);
}

/// The steps of the proof for position `i`, applied to the entry at `i`,
/// reach the root.
proof fn lemma_path_reaches_root<H: HashOracle>(h: &H, level: Seq<Seq<u8>>, i: int)
    requires
        0 <= i < level.len(),
    ensures
        fold_proof(h, path_proof(levels_from(h, level), i), level[i]) == root_of_levels(
            levels_from(h, level),
        ),
    decreases level.len(),
{
    let ls = levels_from(h, level);
    if level.len() > 1 {
        let p = parent_level(h, level);
        lemma_root_from_parent(h, level);
        let step = proof_step(level, i);
        let rest = path_proof(levels_from(h, p), i / 2);
        assert(ls[0] == level);
        let path = path_proof(ls, i);
        assert(path == seq![step] + rest);
        assert(path.drop_first() =~= rest);
        assert(path[0] == step);
        let q = i / 2;
        assert(combine(h, level[i], step) == p[q]) by {
            if i % 2 == 0 {
                assert(2 * q == i);
            } else {
                assert(2 * q + 1 == i);
            }
        }
        lemma_path_reaches_root(h, p, q);
    }
}

/// Round trip: the proof generated for any leaf of the tree over `items`
/// verifies against that tree's root and the leaf's own data.
pub proof fn lemma_round_trip<H: HashOracle>(h: &H, items: Seq<Seq<u8>>, i: int)
    requires
        0 <= i < items.len(),
    ensures
        proof_verifies(h, path_proof(tree_levels(h, items), i), tree_root(h, items), items[i]),
{
    lemma_path_reaches_root(h, leaf_level(h, items), i);
}

/// Singleton: the tree over one item has one level, and its root is the
/// digest of that item.
pub proof fn lemma_singleton_root<H: HashOracle>(h: &H, items: Seq<Seq<u8>>)
    requires
        items.len() == 1,
    ensures
        tree_levels(h, items).len() == 1,
        tree_root(h, items) == h.spec_digest(items[0]),
{
}

/// Determinism: the tree, and so the root, is a function of the ordered
/// items alone; equal inputs give identical trees.
pub proof fn lemma_build_deterministic<H: HashOracle>(
    h: &H,
    items: Seq<Seq<u8>>,
    again: Seq<Seq<u8>>,
)
    requires
        items == again,
    ensures
        tree_levels(h, items) == tree_levels(h, again),
        tree_root(h, items) == tree_root(h, again),
{
}

/// Two different levels of one width, whose entries have the oracle's width,
/// lead to the same root only through a collision of the oracle.
proof fn lemma_equal_roots_collide<H: HashOracle>(h: &H, a: Seq<Seq<u8>>, b: Seq<Seq<u8>>)
    requires
        a.len() == b.len(),
        a.len() >= 1,
        all_width(a, h.width()),
        all_width(b, h.width()),
        a != b,
        root_of_levels(levels_from(h, a)) == root_of_levels(levels_from(h, b)),
    ensures
        has_collision(h),
    decreases a.len(),
{
    if a.len() == 1 {
        assert(a =~= b);
    } else {
        let pa = parent_level(h, a);
        let pb = parent_level(h, b);
        lemma_root_from_parent(h, a);
        lemma_root_from_parent(h, b);
        lemma_parent_width(h, a);
        lemma_parent_width(h, b);
        if pa != pb {
            lemma_equal_roots_collide(h, pa, pb);
        } else {
            let j = choose|j: int| 0 <= j < a.len() && a[j] != b[j];
            assert(exists|j: int| 0 <= j < a.len() && a[j] != b[j]) by {
                if forall|j: int| 0 <= j < a.len() ==> a[j] == b[j] {
                    assert(a =~= b);
                }
            }
            let q = j / 2;
            let r = right_partner(a.len() as int, q);
            let x = a[2 * q] + a[r];
            let y = b[2 * q] + b[r];
            assert(pa[q] == pb[q]);
            assert(h.spec_digest(x) == h.spec_digest(y));
            if x == y {
                lemma_concat_injective(a[2 * q], a[r], b[2 * q], b[r]);
                assert(j == 2 * q || j == r);
            }
            assert(x != y && h.spec_digest(x) == h.spec_digest(y));
        }
    }
}

/// Sensitivity: replacing one item by a different one changes the root,
/// unless the oracle has a collision.
pub proof fn lemma_changed_item_changes_root<H: HashOracle>(
    h: &H,
    items: Seq<Seq<u8>>,
    i: int,
    x: Seq<u8>,
)
    requires
        0 <= i < items.len(),
        x != items[i],
        tree_root(h, items) == tree_root(h, items.update(i, x)),
    ensures
        has_collision(h),
{
    let changed = items.update(i, x);
    let a = leaf_level(h, items);
    let b = leaf_level(h, changed);
    assert forall|j: int| 0 <= j < a.len() implies (#[trigger] a[j]).len() == h.width() by {
        h.lemma_digest_width(items[j]);
    }
    assert forall|j: int| 0 <= j < b.len() implies (#[trigger] b[j]).len() == h.width() by {
        h.lemma_digest_width(changed[j]);
    }
    if a == b {
        assert(a[i] == b[i]);
        assert(items[i] != changed[i] && h.spec_digest(items[i]) == h.spec_digest(changed[i]));
    } else {
        lemma_equal_roots_collide(h, a, b);
    }
}

/// Every sibling in the proof for position `i` has the oracle's width.
proof fn lemma_path_width<H: HashOracle>(h: &H, level: Seq<Seq<u8>>, i: int)
    requires
        0 <= i < level.len(),
        all_width(level, h.width()),
    ensures
        forall|k: int|
            0 <= k < path_proof(levels_from(h, level), i).len() ==> (#[trigger] path_proof(
                levels_from(h, level),
                i,
            )[k]).0.len() == h.width(),
    decreases level.len(),
{
    let path = path_proof(levels_from(h, level), i);
    if level.len() > 1 {
        let p = parent_level(h, level);
        lemma_root_from_parent(h, level);
        lemma_parent_width(h, level);
        lemma_path_width(h, p, i / 2);
        let rest = path_proof(levels_from(h, p), i / 2);
        assert(path == seq![proof_step(level, i)] + rest);
        assert forall|k: int| 0 <= k < path.len() implies (#[trigger] path[k]).0.len()
            == h.width() by {
            if k > 0 {
                assert(path[k] == rest[k - 1]);
            }
        }
    }
}

/// Two different starts, or two step sequences that differ only in their
/// siblings, all of the oracle's width, reach the same digest only through
/// a collision of the oracle.
proof fn lemma_fold_collide<H: HashOracle>(
    h: &H,
    s: Seq<(Seq<u8>, bool)>,
    t: Seq<(Seq<u8>, bool)>,
    c: Seq<u8>,
    d: Seq<u8>,
)
    requires
        s.len() == t.len(),
        forall|k: int| 0 <= k < s.len() ==> (#[trigger] s[k]).1 == t[k].1,
        forall|k: int| 0 <= k < s.len() ==> (#[trigger] s[k]).0.len() == h.width(),
        forall|k: int| 0 <= k < t.len() ==> (#[trigger] t[k]).0.len() == h.width(),
        c.len() == h.width(),
        d.len() == h.width(),
        c != d || s != t,
        fold_proof(h, s, c) == fold_proof(h, t, d),
    ensures
        has_collision(h),
    decreases s.len(),
{
    if s.len() == 0 {
        assert(s =~= t);
    } else {
        let c1 = combine(h, c, s[0]);
        let d1 = combine(h, d, t[0]);
        let x = if s[0].1 { c + s[0].0 } else { s[0].0 + c };
        let y = if t[0].1 { d + t[0].0 } else { t[0].0 + d };
        h.lemma_digest_width(x);
        h.lemma_digest_width(y);
        if c1 != d1 {
            lemma_fold_collide(h, s.drop_first(), t.drop_first(), c1, d1);
        } else if x != y {
            assert(x != y && h.spec_digest(x) == h.spec_digest(y));
        } else {
            if s[0].1 {
                lemma_concat_injective(c, s[0].0, d, t[0].0);
            } else {
                lemma_concat_injective(s[0].0, c, t[0].0, d);
            }
            assert(s[0] == t[0]);
            if s.drop_first() == t.drop_first() {
                assert(s =~= t) by {
                    assert forall|k: int| 0 <= k < s.len() implies s[k] == t[k] by {
                        if k > 0 {
                            assert(s[k] == s.drop_first()[k - 1]);
                            assert(t[k] == t.drop_first()[k - 1]);
                        }
                    }
                }
            }
            lemma_fold_collide(h, s.drop_first(), t.drop_first(), c1, d1);
        }
    }
}

/// Tamper detection, for the siblings: a proof made from a genuine one by
/// changing the bits of its sibling digests, each keeping its length and
/// side, still verifies only through a collision of the oracle.
pub proof fn lemma_tampered_proof_rejected<H: HashOracle>(
    h: &H,
    items: Seq<Seq<u8>>,
    i: int,
    tampered: Seq<(Seq<u8>, bool)>,
)
    requires
        0 <= i < items.len(),
        tampered.len() == path_proof(tree_levels(h, items), i).len(),
        forall|k: int|
            0 <= k < tampered.len() ==> {
                &&& (#[trigger] tampered[k]).1 == path_proof(tree_levels(h, items), i)[k].1
                &&& tampered[k].0.len() == path_proof(tree_levels(h, items), i)[k].0.len()
            },
        tampered != path_proof(tree_levels(h, items), i),
        proof_verifies(h, tampered, tree_root(h, items), items[i]),
    ensures
        has_collision(h),
{
    let level = leaf_level(h, items);
    let genuine = path_proof(tree_levels(h, items), i);
    assert forall|j: int| 0 <= j < level.len() implies (#[trigger] level[j]).len() == h.width() by {
        h.lemma_digest_width(items[j]);
    }
    lemma_path_width(h, level, i);
    lemma_round_trip(h, items, i);
    let start = h.spec_digest(items[i]);
    h.lemma_digest_width(items[i]);
    assert forall|k: int| 0 <= k < tampered.len() implies (#[trigger] tampered[k]).0.len()
        == h.width() by {
        assert(genuine[k].0.len() == h.width());
    }
    lemma_fold_collide(h, genuine, tampered, start, start);
}

/// Tamper detection, for the root: a genuine proof checked against any
/// digest other than the tree's root is rejected.
pub proof fn lemma_other_root_rejected<H: HashOracle>(
    h: &H,
    items: Seq<Seq<u8>>,
    i: int,
    other: Seq<u8>,
)
    requires
        0 <= i < items.len(),
        other != tree_root(h, items),
    ensures
        !proof_verifies(h, path_proof(tree_levels(h, items), i), other, items[i]),
{
    lemma_round_trip(h, items, i);
}

} // verus!
