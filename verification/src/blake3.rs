//! The compression function of BLAKE3.

use crate::rng::RandomWords;
use crate::rng::WordSource;
use vstd::prelude::*;

verus! {

/// The first four words of the initialisation vector.
pub const IV_0: u32 = 0x6A09E667;

pub const IV_1: u32 = 0xBB67AE85;

pub const IV_2: u32 = 0x3C6EF372;

pub const IV_3: u32 = 0xA54FF53A;

/// How often the state is mixed in one compression.
pub const ROUNDS: usize = 7;

/// `x` turned right by `n` bits.
pub open spec fn rotated_right(x: u32, n: u32) -> u32 {
    (x >> n) | (x << ((32 - n) as u32))
}

/// The sum of two words, modulo the word size.
pub open spec fn word_sum(x: u32, y: u32) -> u32 {
    ((x + y) % 0x1_0000_0000) as u32
}

/// Four words after the quarter round that takes in the message words `x` and
/// `y`.
pub open spec fn quarter_round(
    a: u32,
    b: u32,
    c: u32,
    d: u32,
    x: u32,
    y: u32,
) -> (u32, u32, u32, u32) {
    let a1 = word_sum(word_sum(a, b), x);
    let d1 = rotated_right(d ^ a1, 16);
    let c1 = word_sum(c, d1);
    let b1 = rotated_right(b ^ c1, 12);
    let a2 = word_sum(word_sum(a1, b1), y);
    let d2 = rotated_right(d1 ^ a2, 8);
    let c2 = word_sum(c1, d2);
    let b2 = rotated_right(b1 ^ c2, 7);
    (a2, b2, c2, d2)
}

/// The state `v` with the words at `a`, `b`, `c` and `d` put through the
/// quarter round.
pub open spec fn mixed(v: Seq<u32>, a: int, b: int, c: int, d: int, x: u32, y: u32) -> Seq<u32> {
    let q = quarter_round(v[a], v[b], v[c], v[d], x, y);
    v.update(a, q.0).update(b, q.1).update(c, q.2).update(d, q.3)
}

/// The four columns of the state mixed with the first half of the message.
#[verifier::opaque]
pub open spec fn columns_mixed(v: Seq<u32>, m: Seq<u32>) -> Seq<u32> {
    let v1 = mixed(v, 0, 4, 8, 12, m[0], m[1]);
    let v2 = mixed(v1, 1, 5, 9, 13, m[2], m[3]);
    let v3 = mixed(v2, 2, 6, 10, 14, m[4], m[5]);
    mixed(v3, 3, 7, 11, 15, m[6], m[7])
}

/// The four diagonals of the state mixed with the second half of the message.
#[verifier::opaque]
pub open spec fn diagonals_mixed(v: Seq<u32>, m: Seq<u32>) -> Seq<u32> {
    let v1 = mixed(v, 0, 5, 10, 15, m[8], m[9]);
    let v2 = mixed(v1, 1, 6, 11, 12, m[10], m[11]);
    let v3 = mixed(v2, 2, 7, 8, 13, m[12], m[13]);
    mixed(v3, 3, 4, 9, 14, m[14], m[15])
}

/// The message in the order in which the next round takes it in.
pub open spec fn permuted(m: Seq<u32>) -> Seq<u32> {
    seq![
        m[2], m[6], m[3], m[10], m[7], m[0], m[4], m[13],
        m[1], m[11], m[12], m[5], m[9], m[14], m[15], m[8],
    ]
}

/// The message as round `n` takes it in.
pub open spec fn schedule(m: Seq<u32>, n: nat) -> Seq<u32>
    decreases n,
{
    if n == 0 {
        m
    } else {
        permuted(schedule(m, (n - 1) as nat))
    }
}

/// The state after the first `n` rounds.
pub open spec fn after_rounds(v: Seq<u32>, m: Seq<u32>, n: nat) -> Seq<u32>
    decreases n,
{
    if n == 0 {
        v
    } else {
        let k = (n - 1) as nat;
        diagonals_mixed(columns_mixed(after_rounds(v, m, k), schedule(m, k)), schedule(m, k))
    }
}

/// What one compression takes in, over mathematical sequences.
pub struct CompressInput {
    pub cv: Seq<u32>,
    pub block: Seq<u32>,
    pub counter_low: u32,
    pub counter_high: u32,
    pub block_len: u32,
    pub flags: u32,
}

/// The sixteen words that mixing starts from.
pub open spec fn initial_words(s: CompressInput) -> Seq<u32> {
    s.cv + seq![
        IV_0, IV_1, IV_2, IV_3, s.counter_low, s.counter_high, s.block_len, s.flags,
    ]
}

/// The sixteen output words of the compression of `s`.
pub open spec fn compression(s: CompressInput) -> Seq<u32> {
    let v = after_rounds(initial_words(s), s.block, ROUNDS as nat);
    Seq::new(
        16,
        |i: int|
            if i < 8 {
                v[i] ^ v[i + 8]
            } else {
                v[i] ^ s.cv[i - 8]
            },
    )
}

/// The input that compresses `block` under twelve chosen words: the chaining
/// value, the counter (low word first), the block length and the flags.
pub open spec fn input_from_words(block: Seq<u32>, words: Seq<u32>) -> CompressInput {
    CompressInput {
        cv: words.take(8),
        block,
        counter_low: words[8],
        counter_high: words[9],
        block_len: words[10],
        flags: words[11],
    }
}

fn rotate_right(x: u32, n: u32) -> (r: u32)
    requires
        0 < n < 32,
    ensures
        r == rotated_right(x, n),
{
    (x >> n) | (x << (32 - n))
}

fn add_words(x: u32, y: u32) -> (r: u32)
    ensures
        r == word_sum(x, y),
{
    x.wrapping_add(y)
}

fn mix(v: &mut [u32; 16], a: usize, b: usize, c: usize, d: usize, x: u32, y: u32)
    requires
        a < 16,
        b < 16,
        c < 16,
        d < 16,
    ensures
        final(v)@ == mixed(old(v)@, a as int, b as int, c as int, d as int, x, y),
{
    let a1 = add_words(add_words(v[a], v[b]), x);
    let d1 = rotate_right(v[d] ^ a1, 16);
    let c1 = add_words(v[c], d1);
    let b1 = rotate_right(v[b] ^ c1, 12);
    let a2 = add_words(add_words(a1, b1), y);
    let d2 = rotate_right(d1 ^ a2, 8);
    let c2 = add_words(c1, d2);
    let b2 = rotate_right(b1 ^ c2, 7);
    v[a] = a2;
    v[b] = b2;
    v[c] = c2;
    v[d] = d2;
}

fn mix_columns(v: &mut [u32; 16], m: &[u32; 16])
    ensures
        final(v)@ == columns_mixed(old(v)@, m@),
{
    reveal(columns_mixed);
    mix(v, 0, 4, 8, 12, m[0], m[1]);
    mix(v, 1, 5, 9, 13, m[2], m[3]);
    mix(v, 2, 6, 10, 14, m[4], m[5]);
    mix(v, 3, 7, 11, 15, m[6], m[7]);
}

fn mix_diagonals(v: &mut [u32; 16], m: &[u32; 16])
    ensures
        final(v)@ == diagonals_mixed(old(v)@, m@),
{
    reveal(diagonals_mixed);
    mix(v, 0, 5, 10, 15, m[8], m[9]);
    mix(v, 1, 6, 11, 12, m[10], m[11]);
    mix(v, 2, 7, 8, 13, m[12], m[13]);
    mix(v, 3, 4, 9, 14, m[14], m[15]);
}

fn permute(m: &[u32; 16]) -> (p: [u32; 16])
    ensures
        p@ == permuted(m@),
{
    [
        m[2], m[6], m[3], m[10], m[7], m[0], m[4], m[13],
        m[1], m[11], m[12], m[5], m[9], m[14], m[15], m[8],
    ]
}

/// The input of one compression.
#[derive(Debug, Copy, Clone)]
pub struct Blake3CompressState {
    pub cv: [u32; 8],
    pub block: [u32; 16],
    pub counter_low: u32,
    pub counter_high: u32,
    pub block_len: u32,
    pub flags: u32,
}

impl View for Blake3CompressState {
    type V = CompressInput;

    open spec fn view(&self) -> CompressInput {
        CompressInput {
            cv: self.cv@,
            block: self.block@,
            counter_low: self.counter_low,
            counter_high: self.counter_high,
            block_len: self.block_len,
            flags: self.flags,
        }
    }
}

impl Blake3CompressState {
    /// A state that takes in `input` as its message block. Everything else is
    /// given by `words`: the chaining value, the counter (low word first), the
    /// block length and the flags.
    pub fn from_words(input: [u32; 16], words: &[u32; 12]) -> (state: Self)
        ensures
            state@ == input_from_words(input@, words@),
    {
        let cv = [
            words[0], words[1], words[2], words[3], words[4], words[5], words[6], words[7],
        ];
        assert(cv@ == words@.take(8));
        Blake3CompressState {
            cv,
            block: input,
            counter_low: words[8],
            counter_high: words[9],
            block_len: words[10],
            flags: words[11],
        }
    }

    /// A state that takes in `input` as its message block. Everything else is
    /// drawn from `rng`, twelve words in all.
    pub fn random<R: RandomWords>(input: [u32; 16], rng: &mut WordSource<R>) -> (state: Self)
        ensures
            crate::rng::drew(old(rng)@, final(rng)@, 12),
            state@ == input_from_words(input@, crate::rng::since(old(rng)@, final(rng)@)),
    {
        let words: [u32; 12] = rng.draw_words();
        assert(rng@.take(old(rng)@.len() as int) == old(rng)@);
        assert(crate::rng::since(old(rng)@, rng@) == words@);
        Self::from_words(input, &words)
    }

    /// Compresses the state to its sixteen output words.
    pub fn compress(&self) -> (words: [u32; 16])
        ensures
            words@ == compression(self@),
    {
        let mut v = [
            self.cv[0], self.cv[1], self.cv[2], self.cv[3],
            self.cv[4], self.cv[5], self.cv[6], self.cv[7],
            IV_0, IV_1, IV_2, IV_3,
            self.counter_low, self.counter_high, self.block_len, self.flags,
        ];
        let mut m = self.block;
        assert(v@ == initial_words(self@));
        for round in 0..ROUNDS
            invariant
                m@ == schedule(self@.block, round as nat),
                v@ == after_rounds(initial_words(self@), self@.block, round as nat),
        {
            mix_columns(&mut v, &m);
            mix_diagonals(&mut v, &m);
            m = permute(&m);
        }
        let mut words = [0u32; 16];
        for i in 0..8usize
            invariant
                v@ == after_rounds(initial_words(self@), self@.block, ROUNDS as nat),
                forall|k: int| 0 <= k < i ==> words@[k] == compression(self@)[k],
                forall|k: int| 8 <= k < i + 8 ==> words@[k] == compression(self@)[k],
        {
            words[i] = v[i] ^ v[i + 8];
            words[i + 8] = v[i + 8] ^ self.cv[i];
        }
        words
    }
}

} // verus!
