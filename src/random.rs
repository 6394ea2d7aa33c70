use crate::clue::Word;
use crate::game::GameState;
use crate::multi::MultiGameState;
use rand::Rng;
use rand_chacha::ChaCha8Rng;
use vstd::prelude::*;

verus! {

#[verifier::external_type_specification]
#[verifier::external_body]
pub struct ExChaCha8Rng(ChaCha8Rng);

/// Relies on rand's `Rng::gen_range` over `ChaCha8Rng`: a value drawn from
/// `0..n`, which panics only when the range is empty.
#[verifier::external_body]
fn draw_below(rng: &mut ChaCha8Rng, n: usize) -> (r: usize)
    requires
        n > 0,
    ensures
        r < n,
{
    rng.gen_range(0..n)
}

impl<const N: usize> GameState<N> {
    /// A candidate drawn at random.
    pub fn random_secret(&self, rng: &mut ChaCha8Rng) -> (r: Word<N>)
        requires
            self.possible_secrets@.len() > 0,
        ensures
            self.possible_secrets@.contains(r),
    {
        let i = draw_below(rng, self.possible_secrets.len());
        self.possible_secrets[i]
    }
}

impl<const N: usize, const GAMES: usize> MultiGameState<N, GAMES> {
    /// For each game, one of its candidates drawn at random.
    pub fn random_secret(&self, rng: &mut ChaCha8Rng) -> (r: [Word<N>; GAMES])
        requires
            self.wf(),
            forall|j: int| 0 <= j < GAMES ==> (#[trigger] self.games@[j]).possible_secrets@.len() > 0,
        ensures
            forall|j: int|
                0 <= j < GAMES ==> (#[trigger] self.games@[j]).possible_secrets@.contains(r@[j]),
    {
        let filler = Word { letters: [0u8;N] };
        let mut words = [filler;GAMES];
        let mut j: usize = 0;
        while j < GAMES
            invariant
                j <= GAMES,
                self.games@.len() == GAMES,
                words@.len() == GAMES,
                forall|k: int| 0 <= k < GAMES ==> (#[trigger] self.games@[k]).possible_secrets@.len() > 0,
                forall|k: int|
                    0 <= k < j ==> (#[trigger] self.games@[k]).possible_secrets@.contains(words@[k]),
            decreases GAMES - j,
        {
            words[j] = self.games[j].random_secret(rng);
            j = j + 1;
        }
        words
    }
}

} // verus!
