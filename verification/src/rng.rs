//! Random words, drawn on the record.

use crate::record::gen_from_os;
use crate::record::gen_from_thread;
use rand::rngs::OsRng;
use rand::rngs::ThreadRng;
use vstd::prelude::*;

pub use crate::record::WordSource;

verus! {

/// Whether the record `after` is the record `before` and `n` words more.
pub open spec fn drew(before: Seq<u32>, after: Seq<u32>, n: nat) -> bool {
    after.len() == before.len() + n && after.take(before.len() as int) == before
}

/// The words that the record `after` holds beyond the record `before`.
pub open spec fn since(before: Seq<u32>, after: Seq<u32>) -> Seq<u32> {
    after.skip(before.len() as int)
}

/// A generator of 32-bit words.
pub trait RandomWords: Sized {
    /// Draws the next word from the generator of `source`. Any word may come
    /// back; it is the one that the record gains.
    fn next_word(source: &mut WordSource<Self>) -> (word: u32)
        ensures
            final(source)@ == old(source)@.push(word),
    ;
}

impl RandomWords for OsRng {
    fn next_word(source: &mut WordSource<OsRng>) -> (word: u32) {
        gen_from_os(source)
    }
}

impl RandomWords for ThreadRng {
    fn next_word(source: &mut WordSource<ThreadRng>) -> (word: u32) {
        gen_from_thread(source)
    }
}

impl<R: RandomWords> WordSource<R> {
    /// Draws one word.
    pub fn draw(&mut self) -> (word: u32)
        ensures
            final(self)@ == old(self)@.push(word),
    {
        R::next_word(self)
    }

    /// Draws `N` words, in order.
    pub fn draw_words<const N: usize>(&mut self) -> (words: [u32; N])
        ensures
            final(self)@ == old(self)@ + words@,
    {
        let mut words: [u32; N] = [0; N];
        for i in 0..N
            invariant
                self@ == old(self)@ + words@.take(i as int),
        {
            let word = self.draw();
            let ghost before = words@;
            words[i] = word;
            assert(words@.take(i + 1) == before.take(i as int).push(word));
        }
        assert(words@.take(N as int) == words@);
        words
    }
}

} // verus!
