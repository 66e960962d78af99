//! A PCG-32 style generator: a 64-bit linear congruential state whose output
//! is an xorshift of the state rotated by its top bits.
//!
//! The model of a generator is the pair [`RngState`]; every executable
//! function states what it returns and how it moves the state as a function
//! of that pair, so a stream is determined by the seed and the increment.
//!
//! Draws that reject outputs (a bounded draw, a draw that is not zero)
//! redraw at most [`MAX_REDRAWS`] times and then take what they have: for
//! some seeds and increments the state never leaves a short cycle, and a
//! draw without a limit would not end.
//!
//! Uniform numbers are handed out as the 64 bits they are made from. What
//! reservoir sampling needs of logarithms is handed in, see [`Reservoir`].

use vstd::prelude::*;

pub mod factory;

verus! {

/// Multiplier of the linear congruential step.
pub const MULTIPLIER: u64 = 6364136223846793005;

/// Number of state bits shifted away to obtain the rotation amount.
pub const ROTATE: u32 = 59;

/// Distance of the xorshift.
pub const XSHIFT: u32 = 18;

/// Number of low bits dropped after the xorshift.
pub const SPARE: u32 = 27;

/// Salt that production front ends add to their seeds. [`Rng::new`] adds
/// none, so that published test vectors of the generator stay valid.
pub const SALT: u64 = 77585124950184;

/// Largest number of rejected draws after which a bounded draw or a
/// non-zero draw is accepted as it is.
pub const MAX_REDRAWS: u64 = 0xffff_ffff_ffff_ffff;

/// Smallest 64-bit draw whose quotient by 2^64, rounded to a double with 53
/// significant bits (ties to even), is greater than one half.
pub const ABOVE_HALF: u64 = 0x8000_0000_0000_0401;

/// The bits of the double 1.0, the weight with which reservoir sampling
/// begins.
pub const UNIT_WEIGHT: u64 = 0x3ff0_0000_0000_0000;

/// The mathematical state of a generator.
pub struct RngState {
    pub state: u64,
    pub increment: u64,
}

/// `x` rotated right by `r` bits, for `r < 32`.
pub open spec fn rotate_right_32(x: u32, r: u32) -> u32 {
    if r == 0 {
        x
    } else {
        (x >> r) | (x << ((32 - r) as u32))
    }
}

/// The 32 bits that a generator in state `state` puts out.
pub open spec fn pcg_output(state: u64) -> u32 {
    let rot = (state >> ROTATE) as u32;
    let xsh = (((state >> XSHIFT) ^ state) >> SPARE) as u32;
    rotate_right_32(xsh, rot)
}

/// The state in which a generator made from `seed`, `salt` and `increment`
/// starts: the three are added, and one step is taken.
pub open spec fn initial_state(seed: u64, salt: u64, increment: u64) -> RngState {
    (RngState {
        state: seed.wrapping_add(salt).wrapping_add(increment),
        increment,
    }).next()
}

/// `2^32 mod up_to`: a draw whose low half is below it is rejected.
pub open spec fn lemire_threshold(up_to: u32) -> int
    recommends
        up_to > 0,
{
    (0x1_0000_0000 - up_to) % (up_to as int)
}

/// The product of a 32-bit output and the bound.
pub open spec fn lemire_product(out: u32, up_to: u32) -> int {
    out * up_to
}

/// Whether a product is accepted: its low 32 bits reach the threshold.
pub open spec fn lemire_accepts(product: int, up_to: u32) -> bool {
    product % 0x1_0000_0000 >= lemire_threshold(up_to)
}

/// `items` with the entries at `i` and `j` exchanged.
pub open spec fn exchanged<T>(items: Seq<T>, i: int, j: int) -> Seq<T> {
    if 0 <= i < items.len() && 0 <= j < items.len() {
        items.update(i, items[j]).update(j, items[i])
    } else {
        items
    }
}

/// The outcome of a bounded draw below `up_to`.
pub struct Bounded {
    pub value: int,
    pub after: RngState,
}

/// The outcome of a Fisher-Yates shuffle.
pub struct Shuffled<T> {
    pub items: Seq<T>,
    pub after: RngState,
}

/// The outcome of a 64-bit draw.
pub struct Wide {
    pub value: int,
    pub after: RngState,
}

impl RngState {
    /// The state after one step.
    pub open spec fn next(self) -> RngState {
        RngState {
            state: self.state.wrapping_mul(MULTIPLIER).wrapping_add(self.increment),
            increment: self.increment,
        }
    }

    /// The 32 bits put out from this state.
    pub open spec fn output(self) -> u32 {
        pcg_output(self.state)
    }

    /// The state after `n` steps.
    pub open spec fn skip(self, n: nat) -> RngState
        decreases n,
    {
        if n == 0 {
            self
        } else {
            self.next().skip((n - 1) as nat)
        }
    }

    /// The `n`-th 32-bit output counted from this state, starting at 0.
    pub open spec fn nth_output(self, n: nat) -> u32 {
        self.skip(n).output()
    }

    /// Two outputs joined, the first in the high half.
    pub open spec fn wide(self) -> Wide {
        Wide {
            value: self.output() * 0x1_0000_0000 + self.next().output(),
            after: self.next().next(),
        }
    }

    /// The first 64-bit draw that is not zero, or the one made after
    /// `fuel` zero draws.
    pub open spec fn nonzero_wide(self, fuel: nat) -> Wide
        decreases fuel,
    {
        let w = self.wide();
        if w.value != 0 || fuel == 0 {
            w
        } else {
            w.after.nonzero_wide((fuel - 1) as nat)
        }
    }

    /// The first accepted product of an output and `up_to`, or the one made
    /// after `fuel` rejected ones, and the state after it.
    pub open spec fn accepted_product(self, up_to: u32, fuel: nat) -> Bounded
        decreases fuel,
    {
        let product = lemire_product(self.output(), up_to);
        if lemire_accepts(product, up_to) || fuel == 0 {
            Bounded { value: product, after: self.next() }
        } else {
            self.next().accepted_product(up_to, (fuel - 1) as nat)
        }
    }

    /// A draw below `up_to` by unbiased bounded multiplication: the high
    /// half of the first accepted product. A bound of one consumes nothing.
    pub open spec fn bounded(self, up_to: u32) -> Bounded
        recommends
            up_to > 0,
    {
        if up_to == 1 {
            Bounded { value: 0, after: self }
        } else {
            let p = self.accepted_product(up_to, MAX_REDRAWS as nat);
            Bounded { value: p.value / 0x1_0000_0000, after: p.after }
        }
    }

    /// Fisher-Yates from position `e` on: each position but the last is
    /// exchanged with one drawn uniformly from itself and those after it.
    pub open spec fn shuffle_from<T>(self, items: Seq<T>, e: nat) -> Shuffled<T>
        recommends
            items.len() <= u32::MAX,
        decreases items.len() - e,
    {
        if e + 1 >= items.len() || items.len() > u32::MAX {
            Shuffled { items, after: self }
        } else {
            let d = self.bounded((items.len() - e) as u32);
            d.after.shuffle_from(exchanged(items, e as int, e + d.value), e + 1)
        }
    }

    /// Fisher-Yates over the whole sequence.
    pub open spec fn shuffle<T>(self, items: Seq<T>) -> Shuffled<T> {
        self.shuffle_from(items, 0)
    }
}

/// Whether the uniform number made from the 64-bit draw `raw`, that is
/// `raw / 2^64` rounded to a double, is greater than one half.
pub open spec fn exceeds_half(raw: u64) -> bool {
    raw >= ABOVE_HALF
}

/// A product of a 32-bit output and a bound fits in 64 bits, below the
/// bound shifted into the high half.
proof fn lemma_product_fits(out: u32, up_to: u32)
    requires
        up_to > 0,
    ensures
        out * up_to <= u64::MAX,
        out * up_to < 0x1_0000_0000 * up_to,
        out * up_to == lemire_product(out, up_to),
{
    assert(out * up_to < 0x1_0000_0000 * up_to) by (nonlinear_arith)
        requires
            out < 0x1_0000_0000,
            up_to > 0,
    ;
    assert(0x1_0000_0000 * up_to <= 0x1_0000_0000 * 0xffff_ffff) by (nonlinear_arith)
        requires
            up_to <= 0xffff_ffff,
    ;
}

/// Exchanging two entries keeps every entry as often as it was.
pub proof fn lemma_exchanged_permutes<T>(items: Seq<T>, i: int, j: int)
    ensures
        exchanged(items, i, j).to_multiset() == items.to_multiset(),
        exchanged(items, i, j).len() == items.len(),
{
    if 0 <= i < items.len() && 0 <= j < items.len() {
        let half = items.update(i, items[j]);
        vstd::seq_lib::to_multiset_update(items, i, items[j]);
        vstd::seq_lib::to_multiset_update(half, j, items[i]);
        broadcast use vstd::multiset::group_multiset_axioms;
        broadcast use vstd::seq_lib::group_to_multiset_ensures;
        assert(items.to_multiset().count(items[j]) > 0) by {
            assert(items.contains(items[j]));
        }
        assert(items.to_multiset().count(items[i]) > 0) by {
            assert(items.contains(items[i]));
        }
        assert(half.update(j, items[i]).to_multiset() =~= items.to_multiset());
    }
}

/// Taking a step after `n` steps is taking `n + 1` steps: the outputs of
/// successive draws from a state are the outputs of its stream, one after
/// the other.
pub proof fn lemma_skip_then_step(state: RngState, n: nat)
    ensures
        state.skip(n).next() == state.skip(n + 1),
        state.skip(n).increment == state.increment,
        state.skip(n).output() == state.nth_output(n),
    decreases n,
{
    if n > 0 {
        lemma_skip_then_step(state.next(), (n - 1) as nat);
        assert(state.skip(n) == state.next().skip((n - 1) as nat));
        assert(state.skip(n + 1) == state.next().skip(n));
    } else {
        assert(state.skip(1) == state.next().skip(0));
    }
}

/// A shuffle keeps every item as often as it was.
pub proof fn lemma_shuffle_permutes<T>(rng: RngState, items: Seq<T>, e: nat)
    ensures
        rng.shuffle_from(items, e).items.to_multiset() == items.to_multiset(),
        rng.shuffle_from(items, e).items.len() == items.len(),
    decreases items.len() - e,
{
    if !(e + 1 >= items.len() || items.len() > u32::MAX) {
        let d = rng.bounded((items.len() - e) as u32);
        let next = exchanged(items, e as int, e + d.value);
        lemma_exchanged_permutes(items, e as int, e + d.value);
        lemma_shuffle_permutes(d.after, next, e + 1);
    }
}

/// A generator: its state and the increment of its stream.
#[derive(Clone, Copy, Debug)]
pub struct Rng {
    state: u64,
    increment: u64,
}

impl View for Rng {
    type V = RngState;

    closed spec fn view(&self) -> RngState {
        RngState { state: self.state, increment: self.increment }
    }
}

impl Rng {
    /// A generator for `seed` on the stream `increment`, without salt.
    pub fn new(seed: u64, increment: u64) -> (rng: Rng)
        requires
            increment > 0,
        ensures
            rng@ == initial_state(seed, 0, increment),
    {
        Rng::with_salt(seed, 0, increment)
    }

    /// A generator for `seed` plus `salt` on the stream `increment`.
    pub fn with_salt(seed: u64, salt: u64, increment: u64) -> (rng: Rng)
        requires
            increment > 0,
        ensures
            rng@ == initial_state(seed, salt, increment),
    {
        let mut pcg = Rng { state: seed.wrapping_add(salt).wrapping_add(increment), increment };
        pcg.step();
        pcg
    }

    /// One step of the linear congruential state.
    pub fn step(&mut self)
        ensures
            final(self)@ == old(self)@.next(),
    {
        self.state = self.state.wrapping_mul(MULTIPLIER).wrapping_add(self.increment);
    }

    /// The next 32 bits of the stream.
    pub fn next_u32(&mut self) -> (out: u32)
        ensures
            out == old(self)@.output(),
            final(self)@ == old(self)@.next(),
    {
        let state = self.state;
        self.step();
        let rot = (state >> ROTATE) as u32;
        let xsh = #[verifier::truncate] ((((state >> XSHIFT) ^ state) >> SPARE) as u32);
        assert(rot < 32) by (bit_vector)
            requires
                rot == (state >> 59) as u32,
        ;
        if rot == 0 {
            xsh
        } else {
            (xsh >> rot) | (xsh << (32 - rot))
        }
    }

    /// The next 64 bits of the stream: two 32-bit outputs, the first in the
    /// high half.
    pub fn next_u64(&mut self) -> (out: u64)
        ensures
            out == old(self)@.wide().value,
            final(self)@ == old(self)@.wide().after,
    {
        let hi = self.next_u32();
        let lo = self.next_u32();
        let mut res = hi as u64;
        res = res << 32;
        assert(res == hi * 0x1_0000_0000) by (bit_vector)
            requires
                res == (hi as u64) << 32,
        ;
        res = res + lo as u64;
        res
    }

    /// The 64 bits from which a uniform number in `(0, 1]` is made: the
    /// first 64-bit draw that is not zero. The number itself is this value
    /// divided by 2^64 and rounded to a double.
    pub fn rand_uni_bits(&mut self) -> (raw: u64)
        ensures
            raw == old(self)@.nonzero_wide(MAX_REDRAWS as nat).value,
            final(self)@ == old(self)@.nonzero_wide(MAX_REDRAWS as nat).after,
    {
        let mut fuel: u64 = MAX_REDRAWS;
        let mut raw = self.next_u64();
        while raw == 0 && fuel > 0
            invariant
                raw == 0 && fuel > 0 ==> old(self)@.nonzero_wide(MAX_REDRAWS as nat)
                    == self@.nonzero_wide((fuel - 1) as nat),
                !(raw == 0 && fuel > 0) ==> raw == old(self)@.nonzero_wide(
                    MAX_REDRAWS as nat,
                ).value && self@ == old(self)@.nonzero_wide(MAX_REDRAWS as nat).after,
            decreases fuel,
        {
            fuel = fuel - 1;
            raw = self.next_u64();
        }
        raw
    }

    /// A draw below `up_to`, by unbiased bounded multiplication.
    pub fn next_usize(&mut self, up_to: u32) -> (r: usize)
        requires
            up_to > 0,
        ensures
            r == old(self)@.bounded(up_to).value,
            final(self)@ == old(self)@.bounded(up_to).after,
            r < up_to,
    {
        if up_to == 1 {
            return 0;
        }
        let ghost target = old(self)@.accepted_product(up_to, MAX_REDRAWS as nat);
        let out = self.next_u32();
        let mut m: u64 = 0;
        let mut leftover: u32 = 0;
        proof {
            lemma_product_fits(out, up_to);
        }
        m = (out as u64) * (up_to as u64);
        leftover = (m & 0xFFFF_FFFF) as u32;
        assert(leftover == m % 0x1_0000_0000) by (bit_vector)
            requires
                leftover == (m & 0xFFFF_FFFF) as u32,
        ;
        let threshold: u32 = 0u32.wrapping_sub(up_to) % up_to;
        assert(threshold == lemire_threshold(up_to));
        if leftover < up_to {
            let mut fuel: u64 = MAX_REDRAWS;
            while leftover < threshold && fuel > 0
                invariant
                    up_to > 1,
                    threshold == lemire_threshold(up_to),
                    leftover == m % 0x1_0000_0000,
                    m < 0x1_0000_0000 * up_to,
                    leftover < threshold && fuel > 0 ==> target == self@.accepted_product(
                        up_to,
                        (fuel - 1) as nat,
                    ),
                    !(leftover < threshold && fuel > 0) ==> target.value == m && target.after
                        == self@,
                decreases fuel,
            {
                fuel = fuel - 1;
                let out = self.next_u32();
                proof {
                    lemma_product_fits(out, up_to);
                }
                m = (out as u64) * (up_to as u64);
                leftover = (m & 0xFFFF_FFFF) as u32;
                assert(leftover == m % 0x1_0000_0000) by (bit_vector)
                    requires
                        leftover == (m & 0xFFFF_FFFF) as u32,
                ;
            }
        }
        let high = m >> 32;
        assert(high == m / 0x1_0000_0000) by (bit_vector)
            requires
                high == m >> 32,
        ;
        assert(high < up_to) by (nonlinear_arith)
            requires
                high == m / 0x1_0000_0000,
                m < 0x1_0000_0000 * up_to,
        ;
        high as usize
    }

    /// Fisher-Yates in place.
    pub fn shuffle<T: Copy>(&mut self, x: &mut Vec<T>)
        requires
            old(x).len() <= u32::MAX,
        ensures
            final(x)@ == old(self)@.shuffle(old(x)@).items,
            final(self)@ == old(self)@.shuffle(old(x)@).after,
            final(x)@.to_multiset() == old(x)@.to_multiset(),
            final(x)@.len() == old(x)@.len(),
    {
        let n = x.len();
        if n == 0 {
            return ;
        }
        let mut e: usize = 0;
        while e < n - 1
            invariant
                n == x.len(),
                0 < n <= u32::MAX,
                e <= n - 1,
                old(self)@.shuffle(old(x)@) == self@.shuffle_from(x@, e as nat),
                x@.to_multiset() == old(x)@.to_multiset(),
            decreases n - e,
        {
            let ee = e + self.next_usize((n - e) as u32);
            let ghost before = x@;
            let a = x[e];
            let b = x[ee];
            x[e] = b;
            x[ee] = a;
            proof {
                assert(x@ == exchanged(before, e as int, ee as int));
                lemma_exchanged_permutes(before, e as int, ee as int);
            }
            e = e + 1;
        }
    }

    /// Whether the next uniform number in `(0, 1]` is greater than one half.
    pub fn rand_uni_above_half(&mut self) -> (above: bool)
        ensures
            above == exceeds_half(old(self)@.nonzero_wide(MAX_REDRAWS as nat).value as u64),
            final(self)@ == old(self)@.nonzero_wide(MAX_REDRAWS as nat).after,
    {
        let raw = self.rand_uni_bits();
        raw >= ABOVE_HALF
    }
}

/// Reservoir sampling by Algorithm L. The two functions of real numbers
/// that the algorithm needs are handed in, on the bits of doubles, so
/// that the draws and the bookkeeping can be exact:
///
/// - `skip(raw, weight)` is how many items to pass over:
///   `floor(ln(u) / ln(1 - w))`, for the uniform number `u = raw / 2^64`
///   and the weight `w` whose bits are `weight`;
/// - `fade(weight, raw, k)` is the bits of the next weight,
///   `w * exp(ln(u) / k)`.
///
/// What a sample holds is stated for every pair of functions.
pub struct Reservoir<S, F> {
    skip: S,
    fade: F,
}

/// The numbers from 0 up to `n`, in order.
pub open spec fn counting(n: nat) -> Seq<usize> {
    Seq::new(n, |i: int| i as usize)
}

/// Whether `picked` holds `k` different places of a sequence of `n` items.
pub open spec fn is_sample(picked: Seq<usize>, n: nat, k: nat) -> bool {
    &&& picked.len() == k
    &&& picked.no_duplicates()
    &&& forall|j: int| 0 <= j < picked.len() ==> picked[j] < n
    &&& (k == n ==> picked == counting(n))
}

impl<S: Fn(u64, u64) -> usize, F: Fn(u64, u64, usize) -> u64> Reservoir<S, F> {
    /// Whether the two functions take every argument.
    pub closed spec fn ready(&self) -> bool {
        &&& forall|raw: u64, weight: u64| call_requires(self.skip, (raw, weight))
        &&& forall|weight: u64, raw: u64, k: usize| call_requires(self.fade, (weight, raw, k))
    }

    pub fn new(skip: S, fade: F) -> (r: Reservoir<S, F>)
        requires
            forall|raw: u64, weight: u64| call_requires(skip, (raw, weight)),
            forall|weight: u64, raw: u64, k: usize| call_requires(fade, (weight, raw, k)),
        ensures
            r.ready(),
    {
        Reservoir { skip, fade }
    }

    /// `k` different places of a sequence of `n` items. The reservoir
    /// begins with the first `k` places; then places are passed over, and
    /// the place that is come to takes a slot of the reservoir that `rng`
    /// draws, until the sequence is passed.
    pub fn draw(&self, rng: &mut Rng, n: usize, k: usize) -> (res: Vec<usize>)
        requires
            self.ready(),
            1 <= k <= n,
            k <= u32::MAX,
        ensures
            is_sample(res@, n as nat, k as nat),
    {
        let mut res = first_places(k);
        let mut w = (self.fade)(UNIT_WEIGHT, raw_uniform(rng), k);
        let mut i: usize = k - 1;
        let mut passed = false;
        while !passed && i <= n
            invariant
                self.ready(),
                1 <= k <= n,
                k <= u32::MAX,
                res@.len() == k,
                res@.no_duplicates(),
                forall|j: int| 0 <= j < res@.len() ==> #[trigger] res@[j] <= i && res@[j] < n,
                k == n ==> res@ == counting(k as nat),
                k - 1 <= i,
            decreases
                    (if passed {
                        0
                    } else {
                        n + 2 - i
                    }),
        {
            let jump = (self.skip)(raw_uniform(rng), w);
            if jump >= n - i {
                passed = true;
            } else {
                i = i + jump + 1;
                if i < n {
                    let slot = slot_below(rng, k);
                    replace(&mut res, slot, i);
                    w = (self.fade)(w, raw_uniform(rng), k);
                }
            }
        }
        res
    }
}

/// The first `k` places, in order.
fn first_places(k: usize) -> (res: Vec<usize>)
    ensures
        res@ == counting(k as nat),
        res@.no_duplicates(),
{
    let mut res: Vec<usize> = Vec::with_capacity(k);
    let mut c: usize = 0;
    while c < k
        invariant
            c <= k,
            res@ == counting(c as nat),
        decreases k - c,
    {
        res.push(c);
        c = c + 1;
        assert(res@ =~= counting(c as nat));
    }
    res
}

/// The 64 bits of the next uniform number: the first 64-bit draw that is
/// not zero.
fn raw_uniform(rng: &mut Rng) -> (raw: u64)
    ensures
        raw == old(rng)@.nonzero_wide(MAX_REDRAWS as nat).value,
        final(rng)@ == old(rng)@.nonzero_wide(MAX_REDRAWS as nat).after,
{
    rng.rand_uni_bits()
}

/// A slot of a reservoir with `k` slots: a bounded draw below `k`.
fn slot_below(rng: &mut Rng, k: usize) -> (slot: usize)
    requires
        1 <= k <= u32::MAX,
    ensures
        slot == old(rng)@.bounded(k as u32).value,
        final(rng)@ == old(rng)@.bounded(k as u32).after,
        slot < k,
{
    rng.next_usize(k as u32)
}

/// Puts a place that is beyond all the places of the reservoir into a
/// slot: the places stay different.
fn replace(res: &mut Vec<usize>, slot: usize, place: usize)
    requires
        slot < old(res)@.len(),
        old(res)@.no_duplicates(),
        forall|j: int| 0 <= j < old(res)@.len() ==> #[trigger] old(res)@[j] < place,
    ensures
        final(res)@ == old(res)@.update(slot as int, place),
        final(res)@.no_duplicates(),
{
    res[slot] = place;
}

impl Rng {
    /// `k` of the items of `x`, at different places, by reservoir
    /// sampling. If `k` is the number of items, the sample is `x`.
    pub fn sample<T: Copy, S, F>(&mut self, x: &[T], k: usize, reservoir: &Reservoir<S, F>) -> (picked:
        Vec<T>) where S: Fn(u64, u64) -> usize, F: Fn(u64, u64, usize) -> u64
        requires
            reservoir.ready(),
            1 <= k <= x@.len(),
            k <= u32::MAX,
        ensures
            exists|places: Seq<usize>|
                #[trigger] is_sample(places, x@.len(), k as nat) && picked@ == Seq::new(
                    k as nat,
                    |j: int| x@[places[j] as int],
                ),
            k == x@.len() ==> picked@ == x@,
    {
        let res = reservoir.draw(self, x.len(), k);
        let mut picked: Vec<T> = Vec::with_capacity(k);
        let mut j: usize = 0;
        while j < k
            invariant
                j <= k,
                res@.len() == k,
                forall|t: int| 0 <= t < res@.len() ==> res@[t] < x@.len(),
                picked@ == Seq::new(j as nat, |t: int| x@[res@[t] as int]),
            decreases k - j,
        {
            picked.push(x[res[j]]);
            j = j + 1;
            assert(picked@ =~= Seq::new(j as nat, |t: int| x@[res@[t] as int]));
        }
        proof {
            assert(is_sample(res@, x@.len(), k as nat));
            if k == x@.len() {
                assert(picked@ =~= x@);
            }
        }
        picked
    }
}

} // verus!
