//! The fixed-seed generator that the sample messages are drawn from, and the
//! choice of messages by name.

use vstd::prelude::*;
use vstd::string::StringSliceAdditionalSpecFns;

verus! {

/// One step of the xorshift generator (shifts 13, 7, 17).
pub open spec fn xorshift(s: u64) -> u64 {
    let a = s ^ (s << 13);
    let b = a ^ (a >> 7);
    b ^ (b << 17)
}

/// A xorshift generator; its state is never 0.
pub struct Rng(u64);

impl View for Rng {
    type V = u64;

    closed spec fn view(&self) -> u64 {
        self.0
    }
}

impl Rng {
    /// A generator seeded with `seed`, or with 1 if `seed` is 0.
    pub fn new(seed: u64) -> (r: Rng)
        ensures
            r@ == (if seed == 0 {
                1
            } else {
                seed
            }),
    {
        Rng(if seed < 1 {
            1
        } else {
            seed
        })
    }

    /// Advances the state one step and returns its high 32 bits.
    pub fn next_u32(&mut self) -> (r: u32)
        ensures
            final(self)@ == xorshift(old(self)@),
            r == (xorshift(old(self)@) >> 32) as u32,
    {
        self.0 = self.0 ^ (self.0 << 13);
        self.0 = self.0 ^ (self.0 >> 7);
        self.0 = self.0 ^ (self.0 << 17);
        (self.0 >> 32) as u32
    }

    /// Draws a message sequence number, from 1,000,000 to 1,999,999.
    pub fn sequence_number(&mut self) -> (r: u32)
        ensures
            final(self)@ == xorshift(old(self)@),
            r == 1_000_000 + (xorshift(old(self)@) >> 32) as u32 % 1_000_000,
            1_000_000 <= r < 2_000_000,
    {
        1_000_000 + self.next_u32() % 1_000_000
    }
}

/// The generator never reaches the state 0 from another state, so a
/// generator from `new` never gets stuck at 0.
pub proof fn lemma_xorshift_nonzero(s: u64)
    requires
        s != 0,
    ensures
        xorshift(s) != 0,
{
    let a = s ^ (s << 13);
    let b = a ^ (a >> 7);
    assert(s != 0 ==> s ^ (s << 13) != 0) by (bit_vector);
    assert(a != 0 ==> a ^ (a >> 7) != 0) by (bit_vector);
    assert(b != 0 ==> b ^ (b << 17) != 0) by (bit_vector);
}

/// `f[a..b]` is one of the comma-separated pieces of `f`.
pub open spec fn is_piece(f: Seq<u8>, a: int, b: int) -> bool {
    &&& 0 <= a <= b <= f.len()
    &&& (a == 0 || f[a - 1] == 0x2c)
    &&& (b == f.len() || f[b] == 0x2c)
    &&& forall|k: int| a <= k < b ==> f[k] != 0x2c
}

/// `name` is one of the comma-separated pieces of `filter`.
pub open spec fn listed(filter: Seq<u8>, name: Seq<u8>) -> bool {
    exists|a: int, b: int| is_piece(filter, a, b) && filter.subrange(a, b) == name
}

/// Whether the message `name` is wanted: every message is when there is no
/// filter, else those whose name is one of the filter's comma-separated
/// pieces, exactly.
pub fn wanted(filter: Option<&str>, name: &str) -> (r: bool)
    ensures
        r == match filter {
            None => true,
            Some(f) => listed(f.spec_bytes(), name.spec_bytes()),
        },
{
    match filter {
        None => true,
        Some(f) => listed_in(f.as_bytes(), name.as_bytes()),
    }
}

fn same_range(f: &[u8], a: usize, b: usize, name: &[u8]) -> (r: bool)
    requires
        a <= b <= f@.len(),
    ensures
        r == (f@.subrange(a as int, b as int) == name@),
{
    if b - a != name.len() {
        return false;
    }
    let mut k: usize = 0;
    while k < name.len()
        invariant
            a <= b <= f@.len(),
            b - a == name@.len(),
            k <= name@.len(),
            forall|j: int| 0 <= j < k ==> f@[a + j] == name@[j],
        decreases name@.len() - k,
    {
        if f[a + k] != name[k] {
            return false;
        }
        k = k + 1;
    }
    assert(f@.subrange(a as int, b as int) =~= name@);
    true
}

fn listed_in(f: &[u8], name: &[u8]) -> (r: bool)
    ensures
        r == listed(f@, name@),
{
    let mut start: usize = 0;
    let mut i: usize = 0;
    while i <= f.len()
        invariant
            start <= i <= f@.len(),
            start == 0 || f@[start - 1] == 0x2c,
            forall|k: int| start <= k < i ==> f@[k] != 0x2c,
            forall|a: int, b: int| is_piece(f@, a, b) && b < start ==> f@.subrange(a, b) != name@,
        decreases f@.len() + 1 - i,
    {
        if i == f.len() || f[i] == 0x2c {
            if same_range(f, start, i, name) {
                assert(is_piece(f@, start as int, i as int));
                return true;
            }
            // The only piece that ends at `i` or before it and not before
            // `start` is `f[start..i]`.
            assert forall|a: int, b: int| is_piece(f@, a, b) && b <= i implies f@.subrange(a, b)
                != name@ by {
                if start <= b < i {
                    assert(f@[b] == 0x2c);
                } else if b == i {
                    if a < start {
                        assert(f@[start - 1] == 0x2c);
                    } else if a > start {
                        assert(f@[a - 1] == 0x2c);
                    }
                }
            }
            if i == f.len() {
                return false;
            }
            start = i + 1;
        }
        i = i + 1;
    }
    false
}

} // verus!
