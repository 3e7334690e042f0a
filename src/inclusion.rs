//! Inclusion proofs: the sibling digests on the path from a leaf to the root,
//! each with the side on which it stands, and their verification.
use crate::oracle::HashOracle;
use crate::tree::{bytes_view, concat_bytes, MerkleError, MerkleTree};
use vstd::prelude::*;

verus! {

/// One step of an inclusion proof: the digest to combine with the running
/// digest, and whether it stands on the right of it.
#[derive(Clone, Debug)]
pub struct ProofStep {
    pub sibling: Vec<u8>,
    pub sibling_on_right: bool,
}

impl View for ProofStep {
    type V = (Seq<u8>, bool);

    open spec fn view(&self) -> (Seq<u8>, bool) {
        (self.sibling@, self.sibling_on_right)
    }
}

/// The view of a sequence of proof steps.
pub open spec fn steps_view(s: Seq<ProofStep>) -> Seq<(Seq<u8>, bool)> {
    s.map_values(|p: ProofStep| p@)
}

/// The partner of position `index` within its pair: `index + 1` for an even
/// index, `index - 1` for an odd one.
pub open spec fn sibling_index(index: int) -> int {
    if index % 2 == 0 {
        index + 1
    } else {
        index - 1
    }
}

/// The proof step for position `index` of `level`: its sibling and side, or,
/// for an unpaired tail, the entry itself on the right.
pub open spec fn proof_step(level: Seq<Seq<u8>>, index: int) -> (Seq<u8>, bool) {
    let s = sibling_index(index);
    if s < level.len() {
        (level[s], s > index)
    } else {
        (level[index], true)
    }
}

/// The inclusion proof for position `index` of the first of `levels`: one
/// step per level below the top, bottom first.
pub open spec fn path_proof(levels: Seq<Seq<Seq<u8>>>, index: int) -> Seq<(Seq<u8>, bool)>
    decreases levels.len(),
{
    if levels.len() <= 1 {
        seq![]
    } else {
        seq![proof_step(levels[0], index)] + path_proof(levels.drop_first(), index / 2)
    }
}

/// The running digest after one proof step.
pub open spec fn combine<H: HashOracle>(h: &H, current: Seq<u8>, step: (Seq<u8>, bool)) -> Seq<
    u8,
> {
    if step.1 {
        h.spec_digest(current + step.0)
    } else {
        h.spec_digest(step.0 + current)
    }
}

/// The digest reached from `current` by applying the steps in order.
pub open spec fn fold_proof<H: HashOracle>(
    h: &H,
    steps: Seq<(Seq<u8>, bool)>,
    current: Seq<u8>,
) -> Seq<u8>
    decreases steps.len(),
{
    if steps.len() == 0 {
        current
    } else {
        fold_proof(h, steps.drop_first(), combine(h, current, steps[0]))
    }
}

/// Whether `steps` lead from the digest of `leaf` to `root`.
pub open spec fn proof_verifies<H: HashOracle>(
    h: &H,
    steps: Seq<(Seq<u8>, bool)>,
    root: Seq<u8>,
    leaf: Seq<u8>,
) -> bool {
    fold_proof(h, steps, h.spec_digest(leaf)) == root
}

/// Produces the inclusion proof for leaf `leaf_index`, addressing each
/// sibling by its position in its level.
///
/// Fails with `IndexOutOfRange` exactly when `leaf_index` is not below the
/// leaf count.
pub fn generate_proof(tree: &MerkleTree, leaf_index: usize) -> (r: Result<
    Vec<ProofStep>,
    MerkleError,
>)
    ensures
        r is Err <==> leaf_index >= tree@[0].len(),
        r is Err ==> r == Err::<Vec<ProofStep>, MerkleError>(MerkleError::IndexOutOfRange),
        r is Ok ==> steps_view(r->Ok_0@) == path_proof(tree@, leaf_index as int),
{
    proof {
        use_type_invariant(tree);
    }
    if leaf_index >= tree.levels[0].len() {
        return Err(MerkleError::IndexOutOfRange);
    }
    let ghost levels = tree@;
    let top = tree.levels.len() - 1;
    let mut proof: Vec<ProofStep> = Vec::new();
    let mut index = leaf_index;
    let mut k: usize = 0;
    assert(levels.subrange(0, levels.len() as int) =~= levels);
    while k < top
        invariant
            levels == tree@,
            tree.well_formed(),
            top == levels.len() - 1,
            k <= top,
            index < levels[k as int].len(),
            steps_view(proof@) + path_proof(levels.subrange(k as int, levels.len() as int), index as int)
                == path_proof(levels, leaf_index as int),
        decreases top - k,
    {
        let level = &tree.levels[k];
        assert(bytes_view(level@) == levels[k as int]);
        let sib = if index % 2 == 0 {
            index + 1
        } else {
            index - 1
        };
        let step = if sib < level.len() {
            ProofStep { sibling: level[sib].clone(), sibling_on_right: sib > index }
        } else {
            ProofStep { sibling: level[index].clone(), sibling_on_right: true }
        };
        let ghost rest = levels.subrange(k as int, levels.len() as int);
        assert(step@ == proof_step(levels[k as int], index as int));
        assert(rest[0] == levels[k as int]);
        assert(rest.drop_first() =~= levels.subrange(k + 1, levels.len() as int));
        let ghost before = steps_view(proof@);
        proof.push(step);
        assert(steps_view(proof@) =~= before.push(step@));
        assert(before + (seq![step@] + path_proof(rest.drop_first(), index as int / 2)) =~= before.push(
            step@,
        ) + path_proof(rest.drop_first(), index as int / 2));
        index = index / 2;
        k = k + 1;
    }
    assert(levels.subrange(top as int, levels.len() as int).len() == 1);
    assert(steps_view(proof@) =~= path_proof(levels, leaf_index as int));
    Ok(proof)
}

/// Whether `a` and `b` hold the same bytes.
fn bytes_equal(a: &[u8], b: &[u8]) -> (r: bool)
    ensures
        r == (a@ == b@),
{
    if a.len() != b.len() {
        return false;
    }
    let mut i: usize = 0;
    while i < a.len()
        invariant
            a@.len() == b@.len(),
            i <= a@.len(),
            forall|k: int| 0 <= k < i ==> a@[k] == b@[k],
        decreases a@.len() - i,
    {
        if a[i] != b[i] {
            return false;
        }
        i = i + 1;
    }
    assert(a@ =~= b@);
    true
}

/// Checks an inclusion proof: starting from the digest of `leaf`, combines
/// the running digest with each step's sibling on the side it names, and
/// reports whether the result equals `root`. A proof of any length is
/// accepted as input; one that does not lead to `root` gives `false`.
pub fn verify_proof<H: HashOracle>(h: &H, proof: &[ProofStep], root: &[u8], leaf: &[u8]) -> (r:
    bool)
    ensures
        r == proof_verifies(h, steps_view(proof@), root@, leaf@),
{
    let ghost steps = steps_view(proof@);
    let mut current = h.digest(leaf);
    let mut k: usize = 0;
    assert(steps.subrange(0, steps.len() as int) =~= steps);
    while k < proof.len()
        invariant
            steps == steps_view(proof@),
            k <= proof@.len(),
            fold_proof(h, steps.subrange(k as int, steps.len() as int), current@) == fold_proof(
                h,
                steps,
                h.spec_digest(leaf@),
            ),
        decreases proof@.len() - k,
    {
        let step = &proof[k];
        let ghost rest = steps.subrange(k as int, steps.len() as int);
        assert(rest[0] == step@);
        assert(rest.drop_first() =~= steps.subrange(k + 1, steps.len() as int));
        let joined = if step.sibling_on_right {
            concat_bytes(current.as_slice(), step.sibling.as_slice())
        } else {
            concat_bytes(step.sibling.as_slice(), current.as_slice())
        };
        current = h.digest(joined.as_slice());
        k = k + 1;
    }
    assert(steps.subrange(k as int, steps.len() as int).len() == 0);
    bytes_equal(current.as_slice(), root)
}

} // verus!
