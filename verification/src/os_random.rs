//! Words from the random source of the operating system.
use vstd::prelude::*;
use crate::prelude::filled;

verus! {

/// How many words are drawn at once.
pub const OS_RANDOM_BATCH_WORDS: usize = 1_048_576;

/// `getrandom::Error`, why the operating system gave no random bytes.
#[verifier::external_type_specification]
#[verifier::external_body]
pub struct ExGetrandomError(getrandom::Error);

/// The random source of the operating system failed.
#[derive(Clone, Copy, Debug, PartialEq, Eq)]
pub struct RandomSourceFailed;

/// `getrandom::fill` over the bytes of `words`, which `bytemuck::cast_slice_mut` gives.
/// Any words may come, and the call may fail; their number stays.
#[verifier::external_body]
fn fill_words(words: &mut Vec<u32>) -> (r: Result<(), getrandom::Error>)
    ensures
        final(words)@.len() == old(words)@.len(),
{
    getrandom::fill(bytemuck::cast_slice_mut(words.as_mut_slice()))
}

/// Random words, handed out one after another.
#[derive(Debug)]
pub struct OsRandomWords {
    words: Vec<u32>,
    next: usize,
}

impl OsRandomWords {
    /// The words that are handed out before more are drawn.
    pub closed spec fn waiting(&self) -> Seq<u32> {
        self.words@.skip(self.next as int)
    }

    /// The last words that were drawn.
    pub closed spec fn batch(&self) -> Seq<u32> {
        self.words@
    }

    /// Handing out `words`, one after another, leaves `after`. The words that wait come
    /// first, and drawn ones follow.
    pub open spec fn drew(&self, after: &Self, words: Seq<u32>) -> bool {
        &&& forall|i: int|
            0 <= i < words.len() && i < self.waiting().len() ==> #[trigger] words[i]
                == self.waiting()[i]
        &&& words.len() <= self.waiting().len() ==> after.waiting() == self.waiting().skip(
            words.len() as int,
        )
    }

    /// Handing out `first` and then `second` is handing out both.
    pub(crate) proof fn lemma_drew(
        &self,
        middle: &Self,
        after: &Self,
        first: Seq<u32>,
        second: Seq<u32>,
    )
        requires
            self.drew(middle, first),
            middle.drew(after, second),
        ensures
            self.drew(after, first + second),
    {
        let n = first.len() as int;
        let all = first + second;
        assert forall|i: int| 0 <= i < all.len() && i < self.waiting().len() implies
            #[trigger] all[i] == self.waiting()[i] by {
            if i < n {
                assert(all[i] == first[i]);
            } else {
                assert(middle.waiting()[i - n] == self.waiting()[i]);
                assert(all[i] == second[i - n]);
            }
        }
        if all.len() <= self.waiting().len() {
            assert(after.waiting() =~= self.waiting().skip(all.len() as int));
        }
    }

    /// There is room for words.
    pub closed spec fn wf(&self) -> bool {
        self.next <= self.words@.len() && self.words@.len() == OS_RANDOM_BATCH_WORDS
    }

    /// Draws the first words.
    pub fn new() -> (r: Result<Self, RandomSourceFailed>)
        ensures
            r matches Ok(words) ==> words.wf() && words.waiting() == words.batch()
                && words.waiting().len() == OS_RANDOM_BATCH_WORDS,
    {
        let mut result = OsRandomWords { words: filled(0u32, OS_RANDOM_BATCH_WORDS), next: 0 };
        match result.refill() {
            Ok(()) => Ok(result),
            Err(error) => Err(error),
        }
    }

    /// Draws a new batch of words, which then all wait. Without one no more words wait than
    /// before.
    fn refill(&mut self) -> (r: Result<(), RandomSourceFailed>)
        requires
            old(self).wf(),
        ensures
            final(self).wf(),
            r is Ok ==> final(self).waiting() == final(self).batch()
                && final(self).waiting().len() == OS_RANDOM_BATCH_WORDS,
            r is Err ==> final(self).waiting().len() == old(self).waiting().len(),
    {
        let outcome: Result<(), getrandom::Error> = fill_words(&mut self.words);
        self.settle(outcome)
    }

    /// What comes of drawing a batch with the outcome `outcome`: all words of the batch
    /// wait, or the words that waited still do.
    pub fn settle(&mut self, outcome: Result<(), getrandom::Error>) -> (r: Result<
        (),
        RandomSourceFailed,
    >)
        requires
            old(self).wf(),
        ensures
            final(self).wf(),
            final(self).batch() == old(self).batch(),
            outcome is Ok ==> r == Ok::<(), RandomSourceFailed>(()) && final(self).waiting()
                == old(self).batch() && final(self).waiting().len() == OS_RANDOM_BATCH_WORDS,
            outcome is Err ==> r == Err::<(), RandomSourceFailed>(RandomSourceFailed)
                && *final(self) == *old(self),
    {
        match outcome {
            Ok(()) => {
                self.next = 0;
                assert(self.waiting() =~= self.batch());
                Ok(())
            },
            Err(_) => Err(RandomSourceFailed),
        }
    }

    /// Hands out the next word, and draws more words where none waits.
    pub fn next_usize(&mut self) -> (r: Result<usize, RandomSourceFailed>)
        requires
            old(self).wf(),
        ensures
            final(self).wf(),
            old(self).waiting().len() > 0 ==> r == Ok::<usize, RandomSourceFailed>(
                old(self).waiting()[0] as usize,
            ) && final(self).waiting() == old(self).waiting().drop_first(),
            r matches Ok(word) ==> word <= u32::MAX && old(self).drew(
                final(self),
                seq![word as u32],
            ),
            r is Err ==> final(self).waiting() == old(self).waiting(),
            r is Ok && old(self).waiting().len() == 0 ==> final(self).waiting().len()
                == OS_RANDOM_BATCH_WORDS - 1,
    {
        let ghost before = *self;
        if self.next == self.words.len() {
            match self.refill() {
                Ok(()) => {},
                Err(error) => {
                    assert(self.waiting() =~= before.waiting());
                    return Err(error);
                },
            }
        }
        let ghost drawn = *self;
        let result: usize = self.words[self.next] as usize;
        self.next += 1;
        proof {
            assert(drawn.waiting().len() > 0);
            assert(self.waiting() =~= drawn.waiting().drop_first());
            if before.waiting().len() > 0 {
                assert(self.waiting() =~= before.waiting().skip(1));
            }
        }
        Ok(result)
    }
}

} // verus!
