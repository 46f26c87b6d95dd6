use vstd::prelude::*;

verus! {

/// What one render is made of, fixed at start-up: an image `side_lengths`
/// pixels square, cut in `num_blocks` tiles, worked on by at most
/// `num_threads` workers at once, each pixel the mean of `samples` samples of
/// at most `max_iter` iterations.
#[derive(Clone, Copy, Debug, PartialEq, Eq, Structural)]
pub struct Config {
    pub side_lengths: usize,
    pub num_blocks: usize,
    pub num_threads: usize,
    pub samples: usize,
    pub max_iter: usize,
}

} // verus!
