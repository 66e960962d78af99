//! Streams of the generator, one for each purpose: a forest with `ncol`
//! columns and `ntree` trees gives every shadow column, every tree, every
//! bag and every permutation an increment of its own.

use crate::random_number_generator::{initial_state, Rng};
use vstd::prelude::*;

verus! {

/// What a stream is for.
pub enum Stream {
    /// Shuffling the shadow of a column.
    Shadow { col: nat },
    /// Growing a tree.
    Tree { tree: nat },
    /// Drawing the bag of a tree.
    TreeMask { tree: nat },
    /// Permuting a column for the importance that a tree gives it.
    Permutation { tree: nat, col: nat },
}

/// The increment of a stream in a forest with `ncol` columns and `ntree`
/// trees.
pub open spec fn increment_of(stream: Stream, ncol: nat, ntree: nat) -> nat {
    match stream {
        Stream::Shadow { col } => col + 1,
        Stream::Tree { tree } => ncol + tree + 1,
        Stream::TreeMask { tree } => ncol + ntree + tree + 1,
        Stream::Permutation { tree, col } => ncol + ntree * 2 + tree * ncol + col + 1,
    }
}

/// Whether a stream names a column and a tree of the forest.
pub open spec fn in_forest(stream: Stream, ncol: nat, ntree: nat) -> bool {
    match stream {
        Stream::Shadow { col } => col < ncol,
        Stream::Tree { tree } => tree < ntree,
        Stream::TreeMask { tree } => tree < ntree,
        Stream::Permutation { tree, col } => tree < ntree && col < ncol,
    }
}

/// Two different streams of one forest never share an increment.
pub proof fn lemma_streams_independent(a: Stream, b: Stream, ncol: nat, ntree: nat)
    requires
        in_forest(a, ncol, ntree),
        in_forest(b, ncol, ntree),
        a != b,
    ensures
        increment_of(a, ncol, ntree) != increment_of(b, ncol, ntree),
{
    match (a, b) {
        (Stream::Permutation { tree: t1, col: c1 }, Stream::Permutation { tree: t2, col: c2 }) => {
            if t1 < t2 {
                assert(t1 * ncol + c1 < t2 * ncol + c2) by (nonlinear_arith)
                    requires
                        t1 < t2,
                        c1 < ncol,
                ;
            } else if t2 < t1 {
                assert(t2 * ncol + c2 < t1 * ncol + c1) by (nonlinear_arith)
                    requires
                        t2 < t1,
                        c2 < ncol,
                ;
            }
        },
        (Stream::Permutation { tree, col }, _) => {
            assert(tree * ncol >= 0) by (nonlinear_arith);
        },
        (_, Stream::Permutation { tree, col }) => {
            assert(tree * ncol >= 0) by (nonlinear_arith);
        },
        _ => {},
    }
}

/// Makes the generators of a forest from one seed.
#[derive(Clone, Copy, Debug)]
pub struct RngFactory {
    seed: u64,
    salt: u64,
    ncol: Option<usize>,
    ntree: Option<usize>,
}

/// The mathematical content of a factory.
pub struct FactoryView {
    pub seed: u64,
    pub salt: u64,
    pub ncol: Option<usize>,
    pub ntree: Option<usize>,
}

impl View for RngFactory {
    type V = FactoryView;

    closed spec fn view(&self) -> FactoryView {
        FactoryView { seed: self.seed, salt: self.salt, ncol: self.ncol, ntree: self.ntree }
    }
}

impl FactoryView {
    /// The increment that the factory gives a stream; the sizes that the
    /// factory was made without count as zero.
    pub open spec fn increment(self, stream: Stream) -> nat {
        increment_of(
            stream,
            match self.ncol {
                Some(n) => n as nat,
                None => 0,
            },
            match self.ntree {
                Some(n) => n as nat,
                None => 0,
            },
        )
    }

    /// Whether the factory can make the stream: it knows the sizes that
    /// the increment is made of, and the increment fits the machine word.
    pub open spec fn serves(self, stream: Stream) -> bool {
        &&& self.increment(stream) <= usize::MAX
        &&& match stream {
            Stream::Shadow { .. } => true,
            Stream::Tree { .. } => self.ncol is Some,
            Stream::TreeMask { .. } => self.ncol is Some && self.ntree is Some,
            Stream::Permutation { .. } => self.ncol is Some && self.ntree is Some,
        }
    }

    /// The state in which the generator of a stream starts.
    pub open spec fn start(self, stream: Stream) -> crate::random_number_generator::RngState {
        initial_state(self.seed, self.salt, self.increment(stream) as u64)
    }
}

impl RngFactory {
    /// A factory without salt.
    pub fn new(seed: u64, ncol: Option<usize>, ntree: Option<usize>) -> (f: RngFactory)
        ensures
            f@ == (FactoryView { seed, salt: 0, ncol, ntree }),
    {
        RngFactory { seed, salt: 0, ncol, ntree }
    }

    /// A factory whose generators add `salt` to the seed.
    pub fn with_salt(seed: u64, salt: u64, ncol: Option<usize>, ntree: Option<usize>) -> (f:
        RngFactory)
        ensures
            f@ == (FactoryView { seed, salt, ncol, ntree }),
    {
        RngFactory { seed, salt, ncol, ntree }
    }

    /// The generator that shuffles the shadow of column `col_id`.
    pub fn new_rng_shadow(&self, col_id: usize) -> (rng: Rng)
        requires
            self@.serves(Stream::Shadow { col: col_id as nat }),
        ensures
            rng@ == self@.start(Stream::Shadow { col: col_id as nat }),
    {
        Rng::with_salt(self.seed, self.salt, (col_id + 1) as u64)
    }

    /// The generator that grows tree `ith_tree`.
    pub fn new_rng_tree(&self, ith_tree: usize) -> (rng: Rng)
        requires
            self@.serves(Stream::Tree { tree: ith_tree as nat }),
        ensures
            rng@ == self@.start(Stream::Tree { tree: ith_tree as nat }),
    {
        let ncol = self.ncol.unwrap();
        Rng::with_salt(self.seed, self.salt, (ncol + ith_tree + 1) as u64)
    }

    /// The generator that draws the bag of tree `ith_tree`.
    pub fn new_rng_tree_mask(&self, ith_tree: usize) -> (rng: Rng)
        requires
            self@.serves(Stream::TreeMask { tree: ith_tree as nat }),
        ensures
            rng@ == self@.start(Stream::TreeMask { tree: ith_tree as nat }),
    {
        let incr = self.ncol.unwrap() + self.ntree.unwrap() + ith_tree + 1;
        Rng::with_salt(self.seed, self.salt, incr as u64)
    }

    /// The generator that permutes column `col_id` for tree `ith_tree`.
    pub fn new_rng_permutation(&self, ith_tree: usize, col_id: usize) -> (rng: Rng)
        requires
            self@.serves(Stream::Permutation { tree: ith_tree as nat, col: col_id as nat }),
        ensures
            rng@ == self@.start(Stream::Permutation { tree: ith_tree as nat, col: col_id as nat }),
    {
        let ncol = self.ncol.unwrap();
        let ntree = self.ntree.unwrap();
        proof {
            assert(ntree * 2 >= 0 && ith_tree * ncol >= 0) by (nonlinear_arith)
                requires
                    ntree >= 0,
                    ith_tree >= 0,
                    ncol >= 0,
            ;
        }
        let incr = ncol + ntree * 2 + ith_tree * ncol + col_id + 1;
        Rng::with_salt(self.seed, self.salt, incr as u64)
    }
}

} // verus!
