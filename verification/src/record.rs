//! A generator with the record of the words drawn from it. The fields are
//! private to this module: past the constructor, only the calls into the
//! generator add to the record.

use rand::rngs::OsRng;
use rand::rngs::ThreadRng;
use rand::Rng;
use vstd::prelude::*;

verus! {

/// The operating system's generator, `rand::rngs::OsRng`.
#[verifier::external_type_specification]
#[verifier::external_body]
pub struct ExOsRng(OsRng);

/// The per-thread generator, `rand::rngs::ThreadRng`.
#[verifier::external_type_specification]
#[verifier::external_body]
pub struct ExThreadRng(ThreadRng);

/// A generator together with the words drawn from it so far.
pub struct WordSource<R> {
    rng: R,
    drawn: Ghost<Seq<u32>>,
}

impl<R> View for WordSource<R> {
    type V = Seq<u32>;

    /// The words drawn so far, oldest first.
    closed spec fn view(&self) -> Seq<u32> {
        self.drawn@
    }
}

impl<R> WordSource<R> {
    /// Starts the record with nothing drawn.
    pub fn new(rng: R) -> (source: Self)
        ensures
            source@ == Seq::<u32>::empty(),
    {
        WordSource { rng, drawn: Ghost(Seq::empty()) }
    }
}

/// Calls `rand::Rng::gen` for a `u32` on the operating system's generator. The
/// contract claims that the word which comes back is the one that the record
/// gains. Which word that is is chance, so nothing else is claimed of it. The
/// call panics where the operating system has no random bytes to give.
#[verifier::external_body]
pub(crate) fn gen_from_os(source: &mut WordSource<OsRng>) -> (word: u32)
    ensures
        final(source)@ == old(source)@.push(word),
{
    source.rng.gen()
}

/// Calls `rand::Rng::gen` for a `u32` on the thread's generator. The contract
/// claims that the word which comes back is the one that the record gains. Which
/// word that is is chance, so nothing else is claimed of it. The call panics
/// where the generator has to seed itself anew and the operating system has no
/// random bytes to give.
#[verifier::external_body]
pub(crate) fn gen_from_thread(source: &mut WordSource<ThreadRng>) -> (word: u32)
    ensures
        final(source)@ == old(source)@.push(word),
{
    source.rng.gen()
}

} // verus!
