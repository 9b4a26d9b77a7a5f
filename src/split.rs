//! Randomised partition of record positions into a training and a testing
//! group, of a size fixed by a fraction.
use vstd::prelude::*;
use rand::rngs::StdRng;
use rand::seq::SliceRandom;
use rand::SeedableRng;
use crate::error::PrepError;

verus! {

/// `train` and `test` together hold every position in `[0, n)` exactly once.
pub open spec fn partitions_range(train: Seq<usize>, test: Seq<usize>, n: nat) -> bool {
    &&& train.len() + test.len() == n
    &&& (train + test).no_duplicates()
    &&& forall|x: usize| (train + test).contains(x) <==> x < n
}

/// The size of the training group: the floor of `num / den` of `n`.
pub open spec fn train_size(n: nat, num: nat, den: nat) -> nat
    recommends
        den > 0,
{
    (n * num / den) as nat
}

/// Relies on rand's `SliceRandom::shuffle`, driven by a `StdRng` made with
/// `SeedableRng::seed_from_u64(seed)`: the shuffle only swaps entries, so the
/// result holds the entries of `v`, reordered.
#[verifier::external_body]
fn shuffle_seeded(v: Vec<usize>, seed: u64) -> (r: Vec<usize>)
    ensures
        r@.to_multiset() == v@.to_multiset(),
{
    let mut v = v;
    let mut rng = StdRng::seed_from_u64(seed);
    v.shuffle(&mut rng);
    v
}

fn positions(n: usize) -> (r: Vec<usize>)
    ensures
        r@.len() == n,
        forall|i: int| 0 <= i < n ==> #[trigger] r@[i] == i,
{
    let mut r: Vec<usize> = Vec::new();
    let mut i: usize = 0;
    while i < n
        invariant
            i <= n,
            r@.len() == i,
            forall|k: int| 0 <= k < i ==> #[trigger] r@[k] == k,
        decreases n - i,
    {
        r.push(i);
        i = i + 1;
    }
    r
}

/// Splits the positions `[0, n)` into a training and a testing group: a
/// permutation of them drawn from a generator seeded with `seed`, of which
/// the first `floor(n * train_num / train_den)` form the training group and
/// the rest the testing group. The fraction `train_num / train_den` must lie
/// in `[0, 1]`.
pub fn split(n: usize, train_num: u64, train_den: u64, seed: u64) -> (r: Result<
    (Vec<usize>, Vec<usize>),
    PrepError,
>)
    ensures
        match r {
            Ok((train, test)) => {
                &&& train_den > 0 && train_num <= train_den
                &&& train@.len() == train_size(n as nat, train_num as nat, train_den as nat)
                &&& partitions_range(train@, test@, n as nat)
            },
            Err(e) => e == PrepError::InvalidFraction && (train_den == 0 || train_num > train_den),
        },
{
    if train_den == 0 || train_num > train_den {
        return Err(PrepError::InvalidFraction);
    }
    assert((n as int) * (train_num as int) <= 0xffff_ffff_ffff_ffff * 0xffff_ffff_ffff_ffff)
        by (nonlinear_arith)
        requires
            0 <= (n as int) <= 0xffff_ffff_ffff_ffff,
            0 <= (train_num as int) <= 0xffff_ffff_ffff_ffff;
    let k128: u128 = (n as u128) * (train_num as u128) / (train_den as u128);
    proof {
        assert((n as int) * (train_num as int) <= (n as int) * (train_den as int)) by (nonlinear_arith)
            requires train_num <= train_den;
        assert((n as int) * (train_den as int) / (train_den as int) == n as int) by (nonlinear_arith)
            requires train_den > 0;
        vstd::arithmetic::div_mod::lemma_div_is_ordered(
            (n as int) * (train_num as int),
            (n as int) * (train_den as int),
            train_den as int,
        );
    }
    let k = k128 as usize;
    let ids = positions(n);
    let mut perm = shuffle_seeded(ids, seed);
    proof {
        assert forall|i: int, j: int|
            0 <= i < ids@.len() && 0 <= j < ids@.len() && i != j implies ids@[i] != ids@[j] by {}
        ids@.lemma_multiset_has_no_duplicates();
        perm@.lemma_multiset_has_no_duplicates_conv();
        ids@.to_multiset_ensures();
        perm@.to_multiset_ensures();
        assert forall|x: usize| perm@.contains(x) <==> x < n by {
            assert(perm@.contains(x) <==> perm@.to_multiset().count(x) > 0);
            assert(ids@.contains(x) <==> ids@.to_multiset().count(x) > 0);
            if x < n {
                assert(ids@[x as int] == x);
            }
            if ids@.contains(x) {
                let i = choose|i: int| 0 <= i < ids@.len() && ids@[i] == x;
                assert(ids@[i] == i);
            }
        }
    }
    let ghost whole = perm@;
    let test = perm.split_off(k);
    assert(perm@ + test@ =~= whole);
    Ok((perm, test))
}

} // verus!
