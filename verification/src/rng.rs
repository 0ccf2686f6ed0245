//! Deterministic, seed-driven sampling. The generator is outside code; its
//! draws are modelled by `chacha_uniform`, a function of the seed and of the
//! history of bounds drawn so far. Rejection sampling on top of it is
//! verified, and prefix stability is proved of the accepted-draw sequence.
use vstd::prelude::*;
use rand::distributions::Distribution;

verus! {

#[verifier::external_type_specification]
#[verifier::external_body]
pub struct ExChaCha20Rng(rand_chacha::ChaCha20Rng);

/// The value produced by a uniform draw below `bounds.last()`, made on a
/// generator seeded with `seed` after earlier draws below each bound of
/// `bounds.drop_last()` in turn. The generator's stream and the sampler's
/// consumption of it are functions of these arguments alone, on every
/// machine; nothing else is assumed of the value.
pub uninterp spec fn chacha_uniform(seed: Seq<u8>, bounds: Seq<usize>) -> usize;

/// A seeded generator together with the history that pins its state: the
/// seed it started from and the bounds of the draws made so far.
pub struct SeededRng {
    inner: rand_chacha::ChaCha20Rng,
    seed_g: Ghost<Seq<u8>>,
    bounds_g: Ghost<Seq<usize>>,
}

impl SeededRng {
    /// The seed this generator was created from.
    pub closed spec fn seed(self) -> Seq<u8> {
        self.seed_g@
    }

    /// The bounds of the draws made so far, in order.
    pub closed spec fn bounds(self) -> Seq<usize> {
        self.bounds_g@
    }
}

/// Relies on rand_chacha::ChaCha20Rng::from_seed: the generator's entire
/// output stream is a function of the 32-byte seed alone. The precondition
/// rules out the length mismatch on which the seed conversion fails.
#[verifier::external_body]
fn chacha_from_seed(seed: &Vec<u8>) -> rand_chacha::ChaCha20Rng
    requires
        seed@.len() == 32,
{
    let bytes: [u8; 32] = seed.as_slice().try_into().unwrap();
    rand::SeedableRng::from_seed(bytes)
}

/// A fresh generator, with no draws made yet. The inner generator is only
/// ever created here and only ever advanced by `draw`, so it always sits at
/// the state that the recorded seed and bounds describe.
pub fn rng_from_seed(seed: &Vec<u8>) -> (r: SeededRng)
    requires
        seed@.len() == 32,
    ensures
        r.seed() == seed@,
        r.bounds() == Seq::<usize>::empty(),
{
    SeededRng { inner: chacha_from_seed(seed), seed_g: Ghost(seed@), bounds_g: Ghost(Seq::empty()) }
}

impl SeededRng {
    /// Relies on rand::distributions::Uniform::new(0, bound) and its
    /// Distribution::sample: a value below `bound`, consumed from the
    /// generator deterministically, so a function of the seed and of the
    /// bounds drawn so far. `Uniform::new` panics when the range is empty,
    /// hence the precondition.
    #[verifier::external_body]
    pub fn draw(&mut self, bound: usize) -> (r: usize)
        requires
            bound > 0,
        ensures
            final(self).seed() == old(self).seed(),
            final(self).bounds() == old(self).bounds().push(bound),
            r == chacha_uniform(old(self).seed(), old(self).bounds().push(bound)),
            r < bound,
    {
        rand::distributions::Uniform::new(0usize, bound).sample(&mut self.inner)
    }
}

/// `n` draws below `bound`.
pub open spec fn const_bounds(bound: usize, n: nat) -> Seq<usize> {
    Seq::new(n, |i: int| bound)
}

/// The `t`-th value drawn below `bound` from a generator seeded with `seed`,
/// when every draw uses the same bound.
pub open spec fn draw_at(seed: Seq<u8>, bound: usize, t: nat) -> usize {
    chacha_uniform(seed, const_bounds(bound, t + 1))
}

/// The distinct indices accepted among the first `n` draws: a draw is kept
/// when it is in range and not yet chosen, and rejected otherwise.
pub open spec fn accepted(seed: Seq<u8>, bound: usize, n: nat) -> Seq<usize>
    decreases n,
{
    if n == 0 {
        Seq::empty()
    } else {
        let prev = accepted(seed, bound, (n - 1) as nat);
        let d = draw_at(seed, bound, (n - 1) as nat);
        if d < bound && !prev.contains(d) {
            prev.push(d)
        } else {
            prev
        }
    }
}

pub proof fn lemma_accepted_in_range(seed: Seq<u8>, bound: usize, n: nat)
    ensures
        forall|i: int| 0 <= i < accepted(seed, bound, n).len() ==> accepted(seed, bound, n)[i] < bound,
        accepted(seed, bound, n).no_duplicates(),
        accepted(seed, bound, n).len() <= n,
    decreases n,
{
    if n > 0 {
        lemma_accepted_in_range(seed, bound, (n - 1) as nat);
    }
}

/// Later cut-offs only extend the accepted sequence.
pub proof fn lemma_accepted_monotone(seed: Seq<u8>, bound: usize, n1: nat, n2: nat)
    requires
        n1 <= n2,
    ensures
        accepted(seed, bound, n1) == accepted(seed, bound, n2).take(
            accepted(seed, bound, n1).len() as int,
        ),
        accepted(seed, bound, n1).len() <= accepted(seed, bound, n2).len(),
    decreases n2 - n1,
{
    if n1 < n2 {
        lemma_accepted_monotone(seed, bound, n1, (n2 - 1) as nat);
        let a1 = accepted(seed, bound, n1);
        let prev = accepted(seed, bound, (n2 - 1) as nat);
        let a2 = accepted(seed, bound, n2);
        assert(a1 == prev.take(a1.len() as int));
        if a2 == prev {
        } else {
            assert(a2 == prev.push(draw_at(seed, bound, (n2 - 1) as nat)));
            assert(a2.take(a1.len() as int) =~= prev.take(a1.len() as int));
        }
    } else {
        assert(accepted(seed, bound, n1).take(accepted(seed, bound, n1).len() as int)
            =~= accepted(seed, bound, n1));
    }
}

/// Prefix stability of sampling: whenever two runs over the same seed and
/// pool size accept `k` and at least `k` indices respectively, the shorter
/// run is exactly the first `k` accepted indices of the longer one. Growing
/// a selection can only append; it never reshuffles what was drawn.
pub proof fn lemma_sample_prefix_stable(seed: Seq<u8>, bound: usize, n1: nat, n2: nat)
    requires
        accepted(seed, bound, n1).len() <= accepted(seed, bound, n2).len(),
    ensures
        accepted(seed, bound, n1) == accepted(seed, bound, n2).take(
            accepted(seed, bound, n1).len() as int,
        ),
{
    let a1 = accepted(seed, bound, n1);
    let a2 = accepted(seed, bound, n2);
    if n1 <= n2 {
        lemma_accepted_monotone(seed, bound, n1, n2);
    } else {
        lemma_accepted_monotone(seed, bound, n2, n1);
        // a2 is a prefix of a1 and at least as long as a1, so they are equal.
        assert(a2 == a1.take(a2.len() as int));
        assert(a2.len() == a1.len());
        assert(a1.take(a1.len() as int) =~= a1);
        assert(a2.take(a1.len() as int) =~= a2);
    }
}

/// No draw budget in excess of this is attempted; a run that has not found
/// enough distinct indices after this many draws reports a sampling failure.
pub const DRAW_LIMIT: u64 = 0xffff_ffff_ffff_ffff;

/// Whether rejection sampling over `bound` indices finds `amount` distinct
/// ones for this seed within the draw budget.
pub open spec fn sampling_succeeds(seed: Seq<u8>, bound: usize, amount: int) -> bool {
    amount <= bound && accepted(seed, bound, DRAW_LIMIT as nat).len() >= amount
}

/// Draws `amount` pairwise-distinct indices below `length` by rejection
/// sampling: indices already chosen are redrawn. The result is the sequence
/// accepted from the generator's deterministic draw stream.
pub fn sample(rng: &mut SeededRng, amount: usize, length: usize) -> (r: Result<Vec<usize>, ()>)
    requires
        old(rng).bounds() == Seq::<usize>::empty(),
    ensures
        r matches Ok(v) ==> exists|n: nat|
            n <= DRAW_LIMIT && v@ == accepted(old(rng).seed(), length, n) && v@.len() == amount,
        r is Ok <==> sampling_succeeds(old(rng).seed(), length, amount as int),
{
    if amount > length {
        return Err(());
    }
    let ghost seed = rng.seed();
    let mut idxs: Vec<usize> = Vec::new();
    let mut draws: u64 = 0;
    loop
        invariant
            amount <= length,
            draws <= DRAW_LIMIT,
            rng.seed() == seed,
            rng.bounds() == const_bounds(length, draws as nat),
            idxs@ == accepted(seed, length, draws as nat),
            idxs@.len() <= amount,
        ensures
            idxs@ == accepted(seed, length, draws as nat),
            draws <= DRAW_LIMIT,
            idxs@.len() == amount || draws == DRAW_LIMIT,
        decreases DRAW_LIMIT - draws,
    {
        if idxs.len() == amount {
            break ;
        }
        if draws == DRAW_LIMIT {
            break ;
        }
        let d = rng.draw(length);
        proof {
            assert(const_bounds(length, draws as nat).push(length) =~= const_bounds(
                length,
                draws as nat + 1,
            ));
            assert(d == draw_at(seed, length, draws as nat));
        }
        let already = contains_index(&idxs, d);
        if !already {
            idxs.push(d);
        }
        draws = draws + 1;
    }
    if idxs.len() == amount {
        proof {
            lemma_accepted_monotone(seed, length, draws as nat, DRAW_LIMIT as nat);
        }
        Ok(idxs)
    } else {
        proof {
            assert(draws == DRAW_LIMIT);
            assert(accepted(seed, length, DRAW_LIMIT as nat).len() < amount);
        }
        Err(())
    }
}

/// Whether `v` holds `d`.
fn contains_index(v: &Vec<usize>, d: usize) -> (r: bool)
    ensures
        r == v@.contains(d),
{
    let n = v.len();
    let mut i: usize = 0;
    while i < n
        invariant
            n == v@.len(),
            0 <= i <= n,
            forall|j: int| 0 <= j < i ==> v@[j] != d,
        decreases n - i,
    {
        if v[i] == d {
            return true;
        }
        i = i + 1;
    }
    proof {
        if v@.contains(d) {
            let j = choose|j: int| 0 <= j < v@.len() && v@[j] == d;
        }
    }
    false
}

} // verus!
