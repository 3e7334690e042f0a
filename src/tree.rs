//! Building a Merkle tree: leaf digests at level 0, each higher level made by
//! hashing adjacent pairs, an unpaired tail paired with itself.
use crate::oracle::HashOracle;
use vstd::prelude::*;

verus! {

/// Why an operation on a tree could not be carried out.
#[derive(Clone, Copy, Debug, PartialEq, Eq, Structural)]
pub enum MerkleError {
    /// A tree was asked for over no items: zero leaves have no root.
    EmptyInput,
    /// A proof was asked for a leaf index at or past the leaf count.
    IndexOutOfRange,
}

/// `ceil(m / 2)`: the width of the level above a level of width `m`.
pub open spec fn half_up(m: int) -> int {
    (m + 1) / 2
}

/// The index of the right-hand partner of position `2 * j` in a level of
/// width `m`: `2 * j + 1`, or `2 * j` itself for an unpaired tail.
pub open spec fn right_partner(m: int, j: int) -> int {
    if 2 * j + 1 < m {
        2 * j + 1
    } else {
        2 * j
    }
}

/// The level above `level`: entry `j` is the digest of the concatenation of
/// entries `2j` and `2j + 1`, the last entry of an odd level doubled.
pub open spec fn parent_level<H: HashOracle>(h: &H, level: Seq<Seq<u8>>) -> Seq<Seq<u8>> {
    Seq::new(
        half_up(level.len() as int) as nat,
        |j: int| h.spec_digest(level[2 * j] + level[right_partner(level.len() as int, j)]),
    )
}

/// `level` followed by every level above it, up to the first of width one.
pub open spec fn levels_from<H: HashOracle>(h: &H, level: Seq<Seq<u8>>) -> Seq<Seq<Seq<u8>>>
    decreases level.len(),
{
    if level.len() <= 1 {
        seq![level]
    } else {
        seq![level] + levels_from(h, parent_level(h, level))
    }
}

/// The digests of the items, in order: level 0 of their tree.
pub open spec fn leaf_level<H: HashOracle>(h: &H, items: Seq<Seq<u8>>) -> Seq<Seq<u8>> {
    items.map_values(|x: Seq<u8>| h.spec_digest(x))
}

/// The levels of the tree over `items`, leaves first.
pub open spec fn tree_levels<H: HashOracle>(h: &H, items: Seq<Seq<u8>>) -> Seq<Seq<Seq<u8>>> {
    levels_from(h, leaf_level(h, items))
}

/// The single digest of the top level.
pub open spec fn root_of_levels(levels: Seq<Seq<Seq<u8>>>) -> Seq<u8> {
    levels.last()[0]
}

/// The root of the tree over `items`.
pub open spec fn tree_root<H: HashOracle>(h: &H, items: Seq<Seq<u8>>) -> Seq<u8> {
    root_of_levels(tree_levels(h, items))
}

/// The shape every tree has: at least one level, the first non-empty, each
/// level above half (rounded up) as wide as the one below, and a top level of
/// width one.
pub open spec fn levels_well_shaped(levels: Seq<Seq<Seq<u8>>>) -> bool {
    &&& levels.len() >= 1
    &&& levels[0].len() >= 1
    &&& levels.last().len() == 1
    &&& forall|k: int|
        0 <= k < levels.len() - 1 ==> {
            &&& #[trigger] levels[k].len() > 1
            &&& levels[k + 1].len() == half_up(levels[k].len() as int)
        }
}

/// The view of a sequence of byte vectors.
pub open spec fn bytes_view(v: Seq<Vec<u8>>) -> Seq<Seq<u8>> {
    v.map_values(|x: Vec<u8>| x@)
}

/// A built Merkle tree: its levels of digests, leaves first, root last.
/// No operation changes a tree once it is built.
pub struct MerkleTree {
    pub(crate) levels: Vec<Vec<Vec<u8>>>,
}

/// The view of a sequence of levels.
pub open spec fn levels_view(v: Seq<Vec<Vec<u8>>>) -> Seq<Seq<Seq<u8>>> {
    v.map_values(|l: Vec<Vec<u8>>| bytes_view(l@))
}

impl View for MerkleTree {
    type V = Seq<Seq<Seq<u8>>>;

    open(crate) spec fn view(&self) -> Seq<Seq<Seq<u8>>> {
        levels_view(self.levels@)
    }
}

impl MerkleTree {
    #[verifier::type_invariant]
    pub(crate) open spec fn well_formed(&self) -> bool {
        levels_well_shaped(self@)
    }

    /// The root digest: the single entry of the top level.
    pub fn root(&self) -> (r: Vec<u8>)
        ensures
            r@ == root_of_levels(self@),
    {
        proof {
            use_type_invariant(self);
        }
        let top = &self.levels[self.levels.len() - 1];
        top[0].clone()
    }

    /// The number of leaves, the width of level 0.
    pub fn leaf_count(&self) -> (r: usize)
        ensures
            r == self@[0].len(),
    {
        proof {
            use_type_invariant(self);
        }
        self.levels[0].len()
    }

    /// The number of levels, leaves and root included.
    pub fn level_count(&self) -> (r: usize)
        ensures
            r == self@.len(),
    {
        self.levels.len()
    }

    /// The tree's height: the number of levels above the leaves, which is
    /// the length of every inclusion proof.
    pub fn height(&self) -> (r: usize)
        ensures
            r == self@.len() - 1,
    {
        proof {
            use_type_invariant(self);
        }
        self.levels.len() - 1
    }

    /// The width of level `k`.
    pub fn level_width(&self, k: usize) -> (r: usize)
        requires
            k < self@.len(),
        ensures
            r == self@[k as int].len(),
    {
        self.levels[k].len()
    }

    /// The digest at position `j` of level `k`.
    pub fn node(&self, k: usize, j: usize) -> (r: Vec<u8>)
        requires
            k < self@.len(),
            j < self@[k as int].len(),
        ensures
            r@ == self@[k as int][j as int],
    {
        self.levels[k][j].clone()
    }
}

/// The concatenation of `a` and `b`.
pub(crate) fn concat_bytes(a: &[u8], b: &[u8]) -> (r: Vec<u8>)
    ensures
        r@ == a@ + b@,
{
    let mut r: Vec<u8> = Vec::new();
    let mut i: usize = 0;
    while i < a.len()
        invariant
            i <= a@.len(),
            r@ == a@.subrange(0, i as int),
        decreases a@.len() - i,
    {
        r.push(a[i]);
        i = i + 1;
        assert(r@ =~= a@.subrange(0, i as int));
    }
    let mut j: usize = 0;
    while j < b.len()
        invariant
            j <= b@.len(),
            r@ == a@ + b@.subrange(0, j as int),
        decreases b@.len() - j,
    {
        r.push(b[j]);
        j = j + 1;
        assert(r@ =~= a@ + b@.subrange(0, j as int));
    }
    assert(a@.subrange(0, a@.len() as int) =~= a@);
    assert(b@.subrange(0, b@.len() as int) =~= b@);
    r
}

/// Computes the level above `level`.
fn next_level<H: HashOracle>(h: &H, level: &Vec<Vec<u8>>) -> (r: Vec<Vec<u8>>)
    ensures
        bytes_view(r@) == parent_level(h, bytes_view(level@)),
{
    let m = level.len();
    let width = m / 2 + m % 2;
    let mut r: Vec<Vec<u8>> = Vec::new();
    let mut j: usize = 0;
    while j < width
        invariant
            m == level@.len(),
            width == half_up(m as int),
            j <= width,
            r@.len() == j,
            forall|k: int|
                0 <= k < j ==> #[trigger] r@[k]@ == parent_level(h, bytes_view(level@))[k],
        decreases width - j,
    {
        let left = &level[2 * j];
        let right = if 2 * j + 1 < m {
            &level[2 * j + 1]
        } else {
            &level[2 * j]
        };
        let joined = concat_bytes(left.as_slice(), right.as_slice());
        let d = h.digest(joined.as_slice());
        r.push(d);
        j = j + 1;
    }
    assert(bytes_view(r@) =~= parent_level(h, bytes_view(level@)));
    r
}

/// `levels_from` starts with the level it is given and has the shape of a
/// tree.
proof fn lemma_levels_from_shape<H: HashOracle>(h: &H, level: Seq<Seq<u8>>)
    requires
        level.len() >= 1,
    ensures
        levels_from(h, level)[0] == level,
        levels_well_shaped(levels_from(h, level)),
    decreases level.len(),
{
    let ls = levels_from(h, level);
    if level.len() > 1 {
        let p = parent_level(h, level);
        lemma_levels_from_shape(h, p);
        let rest = levels_from(h, p);
        assert(ls == seq![level] + rest);
        assert forall|k: int| 0 <= k < ls.len() - 1 implies {
            &&& #[trigger] ls[k].len() > 1
            &&& ls[k + 1].len() == half_up(ls[k].len() as int)
        } by {
            if k > 0 {
                assert(ls[k] == rest[k - 1]);
                assert(ls[k + 1] == rest[k]);
            }
        }
    }
}

/// Builds the Merkle tree over `items`, in their order: level 0 holds the
/// digests of the items, and each level above is made by [`parent_level`]
/// until a level of width one, the root, is reached.
///
/// Fails with `EmptyInput` exactly when there are no items.
pub fn create_merkle_tree<H: HashOracle>(h: &H, items: &[Vec<u8>]) -> (r: Result<
    MerkleTree,
    MerkleError,
>)
    ensures
        r is Err <==> items@.len() == 0,
        r is Err ==> r == Err::<MerkleTree, MerkleError>(MerkleError::EmptyInput),
        r is Ok ==> r->Ok_0@ == tree_levels(h, bytes_view(items@)),
{
    if items.len() == 0 {
        return Err(MerkleError::EmptyInput);
    }
    let ghost leaves = leaf_level(h, bytes_view(items@));
    let mut current: Vec<Vec<u8>> = Vec::new();
    let mut i: usize = 0;
    while i < items.len()
        invariant
            i <= items@.len(),
            leaves == leaf_level(h, bytes_view(items@)),
            bytes_view(current@) == leaves.subrange(0, i as int),
        decreases items@.len() - i,
    {
        let d = h.digest(items[i].as_slice());
        assert(bytes_view(items@)[i as int] == items@[i as int]@);
        assert(d@ == leaves[i as int]);
        let ghost before = bytes_view(current@);
        current.push(d);
        assert(bytes_view(current@) =~= before.push(d@));
        assert(leaves.subrange(0, i + 1) =~= leaves.subrange(0, i as int).push(leaves[i as int]));
        i = i + 1;
    }
    assert(leaves.subrange(0, items@.len() as int) =~= leaves);
    let mut levels: Vec<Vec<Vec<u8>>> = Vec::new();
    assert(levels_view(levels@) + levels_from(h, bytes_view(current@)) =~= levels_from(h, leaves));
    while current.len() > 1
        invariant
            current@.len() >= 1,
            levels_view(levels@) + levels_from(h, bytes_view(current@)) == levels_from(h, leaves),
        decreases current@.len(),
    {
        let next = next_level(h, &current);
        let ghost before = levels_view(levels@);
        let ghost cur = bytes_view(current@);
        levels.push(current);
        assert(levels_view(levels@) =~= before + seq![cur]);
        assert(levels_from(h, cur) == seq![cur] + levels_from(h, bytes_view(next@)));
        assert(before + (seq![cur] + levels_from(h, bytes_view(next@))) =~= (before + seq![cur])
            + levels_from(h, bytes_view(next@)));
        current = next;
    }
    let ghost before = levels_view(levels@);
    let ghost cur = bytes_view(current@);
    levels.push(current);
    assert(levels_view(levels@) =~= before + seq![cur]);
    assert(levels_view(levels@) == levels_from(h, leaves));
    proof {
        lemma_levels_from_shape(h, leaves);
    }
    Ok(MerkleTree { levels })
}

} // verus!
