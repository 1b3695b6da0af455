use vstd::prelude::*;

verus! {

/// An injected pseudo-random source. The engine draws every random value
/// through this trait, so a fixed implementation replays identically.
pub trait AbstractRng: Sized {
    /// A value below `bound`.
    fn gen_u64(&mut self, bound: u64) -> (r: u64)
        requires
            bound >= 1,
        ensures
            r < bound,
    ;

    /// A value below `bound`.
    fn gen_usize(&mut self, bound: usize) -> (r: usize)
        requires
            bound >= 1,
        ensures
            r < bound,
    ;

    /// A value below `bound`.
    fn gen_u8(&mut self, bound: u8) -> (r: u8)
        requires
            bound >= 1,
        ensures
            r < bound,
    ;
}

/// One xorshift128 step over the four state words.
pub open spec fn spec_xorshift(s: (u32, u32, u32, u32)) -> (u32, u32, u32, u32) {
    let t = s.0 ^ (s.0 << 11);
    let wn = (s.3 ^ (s.3 >> 19)) ^ (t ^ (t >> 8));
    (s.1, s.2, s.3, wn)
}

/// A deterministic xorshift128 generator: the same seed replays the same
/// stream of values.
pub struct XorRng {
    pub s0: u32,
    pub s1: u32,
    pub s2: u32,
    pub s3: u32,
}

impl XorRng {
    pub open spec fn state(self) -> (u32, u32, u32, u32) {
        (self.s0, self.s1, self.s2, self.s3)
    }

    pub fn from_seed(seed: [u32; 4]) -> (r: XorRng)
        ensures
            r.state() == (seed[0], seed[1], seed[2], seed[3]),
    {
        XorRng { s0: seed[0], s1: seed[1], s2: seed[2], s3: seed[3] }
    }

    /// Advance the state by one step and return the new last word.
    pub fn next_u32(&mut self) -> (r: u32)
        ensures
            final(self).state() == spec_xorshift(old(self).state()),
            r == final(self).s3,
    {
        let t = self.s0 ^ (self.s0 << 11u32);
        self.s0 = self.s1;
        self.s1 = self.s2;
        self.s2 = self.s3;
        self.s3 = (self.s3 ^ (self.s3 >> 19u32)) ^ (t ^ (t >> 8u32));
        self.s3
    }
}

/// The 64-bit value that two xorshift steps from state `s` yield: the first
/// step's output word in the high half, the second's in the low half.
pub open spec fn spec_draw64(s: (u32, u32, u32, u32)) -> u64 {
    ((spec_xorshift(s).3 as u64) << 32u64) | (spec_xorshift(spec_xorshift(s)).3 as u64)
}

impl AbstractRng for XorRng {
    fn gen_u64(&mut self, bound: u64) -> (r: u64)
        ensures
            r < bound,
            final(self).state() == spec_xorshift(spec_xorshift(old(self).state())),
            r == spec_draw64(old(self).state()) % bound,
    {
        let hi = self.next_u32();
        let lo = self.next_u32();
        let v = ((hi as u64) << 32u64) | (lo as u64);
        v % bound
    }

    fn gen_usize(&mut self, bound: usize) -> (r: usize)
        ensures
            r < bound,
            final(self).state() == spec_xorshift(spec_xorshift(old(self).state())),
            r == (spec_draw64(old(self).state()) % (bound as u64)) as usize,
    {
        let hi = self.next_u32();
        let lo = self.next_u32();
        let v = ((hi as u64) << 32u64) | (lo as u64);
        (v % (bound as u64)) as usize
    }

    fn gen_u8(&mut self, bound: u8) -> (r: u8)
        ensures
            r < bound,
            final(self).state() == spec_xorshift(old(self).state()),
            r == (spec_xorshift(old(self).state()).3 % (bound as u32)) as u8,
    {
        let v = self.next_u32();
        (v % (bound as u32)) as u8
    }
}

/// A non-deterministic source backed by the system generator.
pub struct ThreadSrc {
    rng: rand::rngs::ThreadRng,
}

#[verifier::external_type_specification]
#[verifier::external_body]
pub struct ExThreadRng(rand::rngs::ThreadRng);

/// Relies on rand::rng: a handle to the thread-local generator. Aborts only if
/// the system random source fails at its first use in this thread.
#[verifier::external_body]
fn thread_rng_new() -> rand::rngs::ThreadRng {
    rand::rng()
}

/// Relies on rand's RngExt::random_range over 0..bound: a uniform value in
/// that range; it panics only on an empty range, which the precondition
/// excludes. Nothing more is assumed of the value.
#[verifier::external_body]
fn thread_range_u64(rng: &mut rand::rngs::ThreadRng, bound: u64) -> (r: u64)
    requires
        bound >= 1,
    ensures
        r < bound,
{
    rand::RngExt::random_range(rng, 0..bound)
}

impl ThreadSrc {
    pub fn new() -> ThreadSrc {
        ThreadSrc { rng: thread_rng_new() }
    }
}

impl AbstractRng for ThreadSrc {
    fn gen_u64(&mut self, bound: u64) -> (r: u64)
        ensures
            r < bound,
    {
        thread_range_u64(&mut self.rng, bound)
    }

    fn gen_usize(&mut self, bound: usize) -> (r: usize)
        ensures
            r < bound,
    {
        thread_range_u64(&mut self.rng, bound as u64) as usize
    }

    fn gen_u8(&mut self, bound: u8) -> (r: u8)
        ensures
            r < bound,
    {
        thread_range_u64(&mut self.rng, bound as u64) as u8
    }
}

/// The fixed-seed deterministic source.
pub fn xor_rng() -> (r: XorRng)
    ensures
        r.state() == (27u32, 81u32, 3u32, 555u32),
{
    XorRng::from_seed([27, 81, 3, 555])
}

/// The thread-local non-deterministic source.
pub fn tl_rng() -> ThreadSrc {
    ThreadSrc::new()
}

/// The source the engine uses by default: the fixed-seed one, so that runs
/// replay.
pub fn make_rng() -> (r: XorRng)
    ensures
        r.state() == (27u32, 81u32, 3u32, 555u32),
{
    XorRng::from_seed([27, 81, 3, 555])
}

} // verus!
