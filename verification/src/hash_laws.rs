//! What holds of the compression function.

use crate::blake3::CompressInput;
use vstd::prelude::*;

verus! {

/// `x` turned left by `n` bits.
pub open spec fn turned_left(x: u32, n: u32) -> u32 {
    (x << n) | (x >> ((32 - n) as u32))
}

/// Which words of the block a round takes in, in this order.
#[verifier::opaque]
pub open spec fn message_order(round: int) -> Seq<int> {
    if round == 0 {
        seq![
            0int, 1int, 2int, 3int, 4int, 5int, 6int, 7int,
            8int, 9int, 10int, 11int, 12int, 13int, 14int, 15int,
        ]
    } else if round == 1 {
        seq![
            2int, 6int, 3int, 10int, 7int, 0int, 4int, 13int,
            1int, 11int, 12int, 5int, 9int, 14int, 15int, 8int,
        ]
    } else if round == 2 {
        seq![
            3int, 4int, 10int, 12int, 13int, 2int, 7int, 14int,
            6int, 5int, 9int, 0int, 11int, 15int, 8int, 1int,
        ]
    } else if round == 3 {
        seq![
            10int, 7int, 12int, 9int, 14int, 3int, 13int, 15int,
            4int, 0int, 11int, 2int, 5int, 8int, 1int, 6int,
        ]
    } else if round == 4 {
        seq![
            12int, 13int, 9int, 11int, 15int, 10int, 14int, 8int,
            7int, 2int, 5int, 3int, 0int, 1int, 6int, 4int,
        ]
    } else if round == 5 {
        seq![
            9int, 14int, 11int, 5int, 8int, 12int, 15int, 1int,
            13int, 3int, 0int, 10int, 2int, 6int, 4int, 7int,
        ]
    } else {
        seq![
            11int, 15int, 5int, 0int, 1int, 9int, 8int, 6int,
            14int, 10int, 2int, 12int, 3int, 4int, 7int, 13int,
        ]
    }
}

/// Whether `w` follows `v` by one half of a quarter round on the places `a`, `b`,
/// `c` and `d`, which takes in `word`. The sums agree modulo the word size, the
/// words that were turned give back what they were turned from, and the twelve
/// other places keep their words.
pub open spec fn half_step(
    v: Seq<u32>,
    w: Seq<u32>,
    a: int,
    b: int,
    c: int,
    d: int,
    word: u32,
    turn_d: u32,
    turn_b: u32,
) -> bool {
    &&& w.len() == 16
    &&& forall|i: int|
        0 <= i < 16 && i != a && i != b && i != c && i != d ==> #[trigger] w[i] == v[i]
    &&& (v[a] + v[b] + word - w[a]) % 0x1_0000_0000 == 0
    &&& (v[c] + w[d] - w[c]) % 0x1_0000_0000 == 0
    &&& turned_left(w[d], turn_d) == v[d] ^ w[a]
    &&& turned_left(w[b], turn_b) == v[b] ^ w[c]
}

/// Whether `w` follows `v` as half step `t` of a compression of `block`. A round
/// is sixteen half steps, two for each quarter round, and each takes in the next
/// word of the message. The first four quarter rounds go down the columns of a
/// square of four by four words, the others down its diagonals.
pub open spec fn step_follows(v: Seq<u32>, w: Seq<u32>, block: Seq<u32>, t: int) -> bool {
    let quarter = (t % 16) / 2;
    let column = quarter % 4;
    let lean = quarter / 4;
    let word = block[message_order(t / 16)[t % 16]];
    half_step(
        v,
        w,
        column,
        4 + (column + lean) % 4,
        8 + (column + 2 * lean) % 4,
        12 + (column + 3 * lean) % 4,
        word,
        if t % 2 == 0 { 16 } else { 8 },
        if t % 2 == 0 { 12 } else { 7 },
    )
}

/// Whether `run` holds the states of the compression of `s`, from the first to
/// the last, over seven rounds.
pub open spec fn is_run(s: CompressInput, run: Seq<Seq<u32>>) -> bool {
    &&& run.len() == 113
    &&& run[0].len() == 16
    &&& forall|i: int| 0 <= i < 8 ==> #[trigger] run[0][i] == s.cv[i]
    &&& run[0][8] == 0x6A09E667
    &&& run[0][9] == 0xBB67AE85
    &&& run[0][10] == 0x3C6EF372
    &&& run[0][11] == 0xA54FF53A
    &&& run[0][12] == s.counter_low
    &&& run[0][13] == s.counter_high
    &&& run[0][14] == s.block_len
    &&& run[0][15] == s.flags
    &&& forall|t: int| 0 <= t < 112 ==> #[trigger] step_follows(run[t], run[t + 1], s.block, t)
}

/// Whether `out` is what a compression of `s` gives that ends in the state `v`.
pub open spec fn ends_in(s: CompressInput, v: Seq<u32>, out: Seq<u32>) -> bool {
    forall|i: int|
        0 <= i < 8 ==> #[trigger] out[i] == v[i] ^ v[i + 8] && out[i + 8] == v[i + 8] ^ s.cv[i]
}

proof fn lemma_turn_back(x: u32)
    ensures
        turned_left(crate::blake3::rotated_right(x, 16), 16) == x,
        turned_left(crate::blake3::rotated_right(x, 12), 12) == x,
        turned_left(crate::blake3::rotated_right(x, 8), 8) == x,
        turned_left(crate::blake3::rotated_right(x, 7), 7) == x,
{
    assert((((x >> 16u32) | (x << 16u32)) << 16u32) | (((x >> 16u32) | (x << 16u32)) >> 16u32) == x)
        by (bit_vector);
    assert((((x >> 12u32) | (x << 20u32)) << 12u32) | (((x >> 12u32) | (x << 20u32)) >> 20u32) == x)
        by (bit_vector);
    assert((((x >> 8u32) | (x << 24u32)) << 8u32) | (((x >> 8u32) | (x << 24u32)) >> 24u32) == x)
        by (bit_vector);
    assert((((x >> 7u32) | (x << 25u32)) << 7u32) | (((x >> 7u32) | (x << 25u32)) >> 25u32) == x)
        by (bit_vector);
}

/// The state after one half of a quarter round.
#[verifier::opaque]
spec fn half_done(
    v: Seq<u32>,
    a: int,
    b: int,
    c: int,
    d: int,
    word: u32,
    turn_d: u32,
    turn_b: u32,
) -> Seq<u32> {
    let a1 = crate::blake3::word_sum(crate::blake3::word_sum(v[a], v[b]), word);
    let d1 = crate::blake3::rotated_right(v[d] ^ a1, turn_d);
    let c1 = crate::blake3::word_sum(v[c], d1);
    let b1 = crate::blake3::rotated_right(v[b] ^ c1, turn_b);
    v.update(a, a1).update(b, b1).update(c, c1).update(d, d1)
}

proof fn lemma_half_done(
    v: Seq<u32>,
    a: int,
    b: int,
    c: int,
    d: int,
    word: u32,
    turn_d: u32,
    turn_b: u32,
)
    requires
        v.len() == 16,
        0 <= a < 4 <= b < 8 <= c < 12 <= d < 16,
        turn_d == 16 || turn_d == 8,
        turn_b == 12 || turn_b == 7,
    ensures
        half_step(v, half_done(v, a, b, c, d, word, turn_d, turn_b), a, b, c, d, word, turn_d, turn_b),
{
    reveal(half_done);
    let w = half_done(v, a, b, c, d, word, turn_d, turn_b);
    lemma_turn_back(v[d] ^ w[a]);
    lemma_turn_back(v[b] ^ w[c]);
}

/// A quarter round is two halves.
proof fn lemma_two_halves(v: Seq<u32>, a: int, b: int, c: int, d: int, x: u32, y: u32)
    requires
        v.len() == 16,
        0 <= a < 4 <= b < 8 <= c < 12 <= d < 16,
    ensures
        crate::blake3::mixed(v, a, b, c, d, x, y) == half_done(
            half_done(v, a, b, c, d, x, 16, 12),
            a,
            b,
            c,
            d,
            y,
            8,
            7,
        ),
{
    reveal(half_done);
    let w = half_done(half_done(v, a, b, c, d, x, 16, 12), a, b, c, d, y, 8, 7);
    assert(crate::blake3::mixed(v, a, b, c, d, x, y) =~= w);
}

/// The state after `t` half steps.
spec fn state_at(s: CompressInput, t: nat) -> Seq<u32>
    decreases t,
{
    if t == 0 {
        crate::blake3::initial_words(s)
    } else {
        let k = t - 1;
        let quarter = (k % 16) / 2;
        let column = quarter % 4;
        let lean = quarter / 4;
        half_done(
            state_at(s, k as nat),
            column,
            4 + (column + lean) % 4,
            8 + (column + 2 * lean) % 4,
            12 + (column + 3 * lean) % 4,
            s.block[message_order(k / 16)[k % 16]],
            if k % 2 == 0 { 16 } else { 8 },
            if k % 2 == 0 { 12 } else { 7 },
        )
    }
}

proof fn lemma_state_len(s: CompressInput, t: nat)
    requires
        s.cv.len() == 8,
    ensures
        state_at(s, t).len() == 16,
    decreases t,
{
    reveal(half_done);
    if t > 0 {
        lemma_state_len(s, (t - 1) as nat);
    }
}

proof fn lemma_schedule(m: Seq<u32>, round: nat)
    requires
        m.len() == 16,
        round < 7,
    ensures
        crate::blake3::schedule(m, round) == Seq::new(
            16,
            |i: int| m[message_order(round as int)[i]],
        ),
{
    reveal(message_order);
    assert(crate::blake3::schedule(m, 0) =~= Seq::new(16, |i: int| m[message_order(0)[i]]));
    assert(crate::blake3::schedule(m, 1) =~= Seq::new(16, |i: int| m[message_order(1)[i]])) by {
        assert(crate::blake3::schedule(m, 1) == crate::blake3::permuted(
            crate::blake3::schedule(m, 0),
        ));
    }
    assert(crate::blake3::schedule(m, 2) =~= Seq::new(16, |i: int| m[message_order(2)[i]])) by {
        assert(crate::blake3::schedule(m, 2) == crate::blake3::permuted(
            crate::blake3::schedule(m, 1),
        ));
    }
    assert(crate::blake3::schedule(m, 3) =~= Seq::new(16, |i: int| m[message_order(3)[i]])) by {
        assert(crate::blake3::schedule(m, 3) == crate::blake3::permuted(
            crate::blake3::schedule(m, 2),
        ));
    }
    assert(crate::blake3::schedule(m, 4) =~= Seq::new(16, |i: int| m[message_order(4)[i]])) by {
        assert(crate::blake3::schedule(m, 4) == crate::blake3::permuted(
            crate::blake3::schedule(m, 3),
        ));
    }
    assert(crate::blake3::schedule(m, 5) =~= Seq::new(16, |i: int| m[message_order(5)[i]])) by {
        assert(crate::blake3::schedule(m, 5) == crate::blake3::permuted(
            crate::blake3::schedule(m, 4),
        ));
    }
    assert(crate::blake3::schedule(m, 6) =~= Seq::new(16, |i: int| m[message_order(6)[i]])) by {
        assert(crate::blake3::schedule(m, 6) == crate::blake3::permuted(
            crate::blake3::schedule(m, 5),
        ));
    }
}

/// Quarter round `quarter` of round `round` takes two half steps.
proof fn lemma_quarter(s: CompressInput, round: nat, quarter: nat)
    requires
        s.cv.len() == 8,
        s.block.len() == 16,
        round < 7,
        quarter < 8,
    ensures
        ({
            let column = quarter as int % 4;
            let lean = quarter as int / 4;
            let m = crate::blake3::schedule(s.block, round);
            state_at(s, 16 * round + 2 * quarter + 2) == crate::blake3::mixed(
                state_at(s, 16 * round + 2 * quarter),
                column,
                4 + (column + lean) % 4,
                8 + (column + 2 * lean) % 4,
                12 + (column + 3 * lean) % 4,
                m[2 * quarter as int],
                m[2 * quarter as int + 1],
            )
        }),
{
    let t = 16 * round + 2 * quarter;
    let column = quarter as int % 4;
    let lean = quarter as int / 4;
    let m = crate::blake3::schedule(s.block, round);
    lemma_schedule(s.block, round);
    lemma_state_len(s, t);
    assert(t as int % 16 == 2 * quarter && t as int / 16 == round);
    assert((t + 1) % 16 == 2 * quarter + 1 && (t + 1) / 16 == round as int);
    assert(state_at(s, t + 2) == half_done(
        state_at(s, t + 1),
        column,
        4 + (column + lean) % 4,
        8 + (column + 2 * lean) % 4,
        12 + (column + 3 * lean) % 4,
        m[2 * quarter as int + 1],
        8,
        7,
    ));
    assert(state_at(s, t + 1) == half_done(
        state_at(s, t),
        column,
        4 + (column + lean) % 4,
        8 + (column + 2 * lean) % 4,
        12 + (column + 3 * lean) % 4,
        m[2 * quarter as int],
        16,
        12,
    ));
    lemma_two_halves(
        state_at(s, t),
        column,
        4 + (column + lean) % 4,
        8 + (column + 2 * lean) % 4,
        12 + (column + 3 * lean) % 4,
        m[2 * quarter as int],
        m[2 * quarter as int + 1],
    );
}

/// A round takes sixteen half steps.
proof fn lemma_rounds(s: CompressInput, rounds: nat)
    requires
        s.cv.len() == 8,
        s.block.len() == 16,
        rounds <= 7,
    ensures
        crate::blake3::after_rounds(crate::blake3::initial_words(s), s.block, rounds) == state_at(
            s,
            16 * rounds,
        ),
    decreases rounds,
{
    if rounds > 0 {
        let k = (rounds - 1) as nat;
        let m = crate::blake3::schedule(s.block, k);
        lemma_rounds(s, k);
        reveal(crate::blake3::columns_mixed);
        reveal(crate::blake3::diagonals_mixed);
        lemma_quarter(s, k, 0);
        lemma_quarter(s, k, 1);
        lemma_quarter(s, k, 2);
        lemma_quarter(s, k, 3);
        lemma_quarter(s, k, 4);
        lemma_quarter(s, k, 5);
        lemma_quarter(s, k, 6);
        lemma_quarter(s, k, 7);
        assert(state_at(s, 16 * k + 8) == crate::blake3::columns_mixed(state_at(s, 16 * k), m));
        assert(state_at(s, 16 * k + 16) == crate::blake3::diagonals_mixed(
            state_at(s, 16 * k + 8),
            m,
        ));
    }
}

/// Compression is that of BLAKE3. It runs from the chaining value, the
/// initialisation vector, the counter, the block length and the flags; every
/// round takes in all sixteen words of the block, the first round in order; and
/// at the end the two halves of the state, and the second half and the chaining
/// value, are combined by the bitwise exclusive or.
pub proof fn law_compression_is_blake3(s: CompressInput)
    requires
        s.cv.len() == 8,
        s.block.len() == 16,
    ensures
        crate::blake3::compression(s).len() == 16,
        exists|run: Seq<Seq<u32>>|
            #[trigger] is_run(s, run) && ends_in(s, run[112], crate::blake3::compression(s)),
{
    let run = Seq::new(113, |t: int| state_at(s, t as nat));
    lemma_state_len(s, 0);
    assert forall|t: int| 0 <= t < 112 implies #[trigger] step_follows(
        run[t],
        run[t + 1],
        s.block,
        t,
    ) by {
        let quarter = (t % 16) / 2;
        let column = quarter % 4;
        let lean = quarter / 4;
        lemma_state_len(s, t as nat);
        lemma_half_done(
            run[t],
            column,
            4 + (column + lean) % 4,
            8 + (column + 2 * lean) % 4,
            12 + (column + 3 * lean) % 4,
            s.block[message_order(t / 16)[t % 16]],
            if t % 2 == 0 { 16 } else { 8 },
            if t % 2 == 0 { 12 } else { 7 },
        );
    }
    lemma_rounds(s, 7);
    assert(run[112] == state_at(s, 112));
    assert(is_run(s, run));
}

/// A half step can be undone: the state after it, and the word that it takes in,
/// settle the state before it.
proof fn lemma_step_undone(
    v: Seq<u32>,
    other: Seq<u32>,
    w: Seq<u32>,
    block: Seq<u32>,
    t: int,
)
    requires
        0 <= t < 112,
        v.len() == 16,
        other.len() == 16,
        step_follows(v, w, block, t),
        step_follows(other, w, block, t),
    ensures
        v == other,
{
    let quarter = (t % 16) / 2;
    let column = quarter % 4;
    let lean = quarter / 4;
    let a = column;
    let b = 4 + (column + lean) % 4;
    let c = 8 + (column + 2 * lean) % 4;
    let d = 12 + (column + 3 * lean) % 4;
    lemma_xor_settles(v[d], other[d], w[a]);
    lemma_xor_settles(v[b], other[b], w[c]);
    assert forall|i: int| 0 <= i < 16 implies v[i] == other[i] by {
        if i != a && i != b && i != c && i != d {
            assert(w[i] == v[i]);
            assert(w[i] == other[i]);
        }
    }
    assert(v =~= other);
}

proof fn lemma_xor_settles(x: u32, y: u32, z: u32)
    ensures
        x ^ z == y ^ z ==> x == y,
{
    assert(x ^ z == y ^ z ==> x == y) by (bit_vector);
}

proof fn lemma_run_undone(
    s: CompressInput,
    run: Seq<Seq<u32>>,
    t: CompressInput,
    other: Seq<Seq<u32>>,
    k: int,
)
    requires
        is_run(s, run),
        is_run(t, other),
        s.block == t.block,
        run[112] == other[112],
        0 <= k <= 112,
    ensures
        run[k] == other[k],
    decreases 112 - k,
{
    if k < 112 {
        lemma_run_undone(s, run, t, other, k + 1);
        assert(step_follows(run[k], run[k + 1], s.block, k));
        assert(step_follows(other[k], other[k + 1], t.block, k));
        if k > 0 {
            assert(step_follows(run[k - 1], run[k - 1 + 1], s.block, k - 1));
            assert(step_follows(other[k - 1], other[k - 1 + 1], t.block, k - 1));
        }
        lemma_step_undone(run[k], other[k], run[k + 1], s.block, k);
    }
}

/// Compression keeps apart what it takes in besides the block: under the same
/// chaining value, the same block has the same compression only with the same
/// counter, block length and flags.
pub proof fn law_compression_keeps_apart(s: CompressInput, t: CompressInput)
    requires
        s.cv.len() == 8,
        s.block.len() == 16,
        s.cv == t.cv,
        s.block == t.block,
        crate::blake3::compression(s) == crate::blake3::compression(t),
    ensures
        s.counter_low == t.counter_low,
        s.counter_high == t.counter_high,
        s.block_len == t.block_len,
        s.flags == t.flags,
{
    law_compression_is_blake3(s);
    law_compression_is_blake3(t);
    let run = choose|run: Seq<Seq<u32>>|
        #[trigger] is_run(s, run) && ends_in(s, run[112], crate::blake3::compression(s));
    let other = choose|run: Seq<Seq<u32>>|
        #[trigger] is_run(t, run) && ends_in(t, run[112], crate::blake3::compression(t));
    let last = 111int;
    assert(step_follows(run[last], run[last + 1], s.block, last));
    assert(step_follows(other[last], other[last + 1], t.block, last));
    let out = crate::blake3::compression(s);
    assert forall|i: int| 0 <= i < 16 implies run[112][i] == other[112][i] by {
        let k = if i < 8 { i } else { i - 8 };
        assert(out[k] == run[112][k] ^ run[112][k + 8]);
        assert(crate::blake3::compression(t)[k] == other[112][k] ^ other[112][k + 8]);
        lemma_xor_settles(run[112][k + 8], other[112][k + 8], s.cv[k]);
        lemma_xor_settles(run[112][k], other[112][k], run[112][k + 8]);
    }
    assert(run[112] =~= other[112]);
    lemma_run_undone(s, run, t, other, 0);
}

proof fn lemma_turn_settles(x: u32, y: u32)
    ensures
        turned_left(x, 16) == turned_left(y, 16) ==> x == y,
        turned_left(x, 12) == turned_left(y, 12) ==> x == y,
        turned_left(x, 8) == turned_left(y, 8) ==> x == y,
        turned_left(x, 7) == turned_left(y, 7) ==> x == y,
{
    assert((x << 16u32) | (x >> 16u32) == (y << 16u32) | (y >> 16u32) ==> x == y) by (bit_vector);
    assert((x << 12u32) | (x >> 20u32) == (y << 12u32) | (y >> 20u32) ==> x == y) by (bit_vector);
    assert((x << 8u32) | (x >> 24u32) == (y << 8u32) | (y >> 24u32) ==> x == y) by (bit_vector);
    assert((x << 7u32) | (x >> 25u32) == (y << 7u32) | (y >> 25u32) ==> x == y) by (bit_vector);
}

proof fn lemma_step_settled(v: Seq<u32>, w: Seq<u32>, other: Seq<u32>, block: Seq<u32>, t: int)
    requires
        0 <= t < 112,
        step_follows(v, w, block, t),
        step_follows(v, other, block, t),
    ensures
        w == other,
{
    let quarter = (t % 16) / 2;
    let column = quarter % 4;
    let lean = quarter / 4;
    let a = column;
    let b = 4 + (column + lean) % 4;
    let c = 8 + (column + 2 * lean) % 4;
    let d = 12 + (column + 3 * lean) % 4;
    assert(w[a] == other[a]);
    lemma_turn_settles(w[d], other[d]);
    assert(w[d] == other[d]);
    assert(w[c] == other[c]);
    lemma_turn_settles(w[b], other[b]);
    assert forall|i: int| 0 <= i < 16 implies w[i] == other[i] by {
        if i != a && i != b && i != c && i != d {
            assert(w[i] == v[i]);
            assert(other[i] == v[i]);
        }
    }
    assert(w =~= other);
}

proof fn lemma_run_settled(s: CompressInput, run: Seq<Seq<u32>>, other: Seq<Seq<u32>>, k: int)
    requires
        is_run(s, run),
        is_run(s, other),
        0 <= k <= 112,
    ensures
        run[k] == other[k],
    decreases k,
{
    if k == 0 {
        assert forall|i: int| 0 <= i < 16 implies run[0][i] == other[0][i] by {
            if i < 8 {
                assert(run[0][i] == s.cv[i]);
                assert(other[0][i] == s.cv[i]);
            }
        }
        assert(run[0] =~= other[0]);
    } else {
        let j = k - 1;
        lemma_run_settled(s, run, other, j);
        assert(step_follows(run[j], run[j + 1], s.block, j));
        assert(step_follows(other[j], other[j + 1], s.block, j));
        lemma_step_settled(run[j], run[j + 1], other[j + 1], s.block, j);
    }
}

/// Whoever runs the half steps gets the compression: every run of the compression
/// of `s` ends in it.
pub proof fn law_every_run_ends_in_the_compression(s: CompressInput, run: Seq<Seq<u32>>)
    requires
        s.cv.len() == 8,
        s.block.len() == 16,
        is_run(s, run),
    ensures
        ends_in(s, run[112], crate::blake3::compression(s)),
{
    law_compression_is_blake3(s);
    let other = choose|run: Seq<Seq<u32>>|
        #[trigger] is_run(s, run) && ends_in(s, run[112], crate::blake3::compression(s));
    lemma_run_settled(s, run, other, 112);
}

} // verus!
