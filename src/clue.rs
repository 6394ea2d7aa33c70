use vstd::arithmetic::div_mod::{lemma_div_denominator, lemma_mod_breakdown, lemma_small_mod};
use vstd::prelude::*;
use vstd::std_specs::iter::IteratorSpec;

verus! {

/// Outcome of one letter position of a guess.
#[derive(Debug, PartialEq, Eq, Clone, Copy, Hash, Structural)]
pub enum Tile {
    Correct,
    WrongPosition,
    NotPresentInWord,
}

/// A word of `N` letters, each letter stored as its offset from `'A'`.
/// Parsing gives letters below 26; the clue of a guess is defined for any
/// byte values, and a letter of 26 or more is written as `?`.
#[derive(Debug, Eq, Clone, Copy, Hash, PartialOrd, Ord)]
pub struct Word<const N: usize> {
    pub letters: [u8; N],
}

/// The feedback for one guess: one tile per position.
#[derive(Debug, Eq, Clone, Copy, Hash)]
pub struct Clue<const N: usize> {
    pub tiles: [Tile; N],
}

/// Number of positions `j < k` where the guess misses and the secret holds `c`:
/// the letters of the secret that remain available for `WrongPosition`.
pub open spec fn unmatched_in_secret<T>(secret: Seq<T>, guess: Seq<T>, k: int, c: T) -> nat
    decreases k,
{
    if k <= 0 {
        0
    } else {
        unmatched_in_secret(secret, guess, k - 1, c) + if guess[k - 1] != secret[k - 1]
            && secret[k - 1] == c {
            1nat
        } else {
            0nat
        }
    }
}

/// Number of positions `j < k` where the guess misses and the guess holds `c`.
pub open spec fn unmatched_in_guess<T>(secret: Seq<T>, guess: Seq<T>, k: int, c: T) -> nat
    decreases k,
{
    if k <= 0 {
        0
    } else {
        unmatched_in_guess(secret, guess, k - 1, c) + if guess[k - 1] != secret[k - 1]
            && guess[k - 1] == c {
            1nat
        } else {
            0nat
        }
    }
}

/// The tile at position `i`: an exact match is `Correct`; otherwise the
/// unmatched letters of the secret are handed out from left to right, so the
/// position is `WrongPosition` exactly when fewer unmatched occurrences of its
/// letter came before it than the secret has unmatched copies of that letter.
pub open spec fn tile_at<T>(secret: Seq<T>, guess: Seq<T>, i: int) -> Tile {
    if guess[i] == secret[i] {
        Tile::Correct
    } else if unmatched_in_guess(secret, guess, i, guess[i]) < unmatched_in_secret(
        secret,
        guess,
        secret.len() as int,
        guess[i],
    ) {
        Tile::WrongPosition
    } else {
        Tile::NotPresentInWord
    }
}

/// The clue that `guess` receives against `secret`.
pub open spec fn clue_tiles<T>(secret: Seq<T>, guess: Seq<T>) -> Seq<Tile> {
    Seq::new(guess.len(), |i: int| tile_at(secret, guess, i))
}

pub open spec fn all_correct_tiles(tiles: Seq<Tile>) -> bool {
    forall|i: int| 0 <= i < tiles.len() ==> tiles[i] == Tile::Correct
}

pub proof fn lemma_unmatched_bound<T>(secret: Seq<T>, guess: Seq<T>, k: int, c: T)
    requires
        0 <= k,
    ensures
        unmatched_in_secret(secret, guess, k, c) <= k,
        unmatched_in_guess(secret, guess, k, c) <= k,
    decreases k,
{
    if k > 0 {
        lemma_unmatched_bound(secret, guess, k - 1, c);
    }
}



/// Number of positions `j < k` that show letter `c` as `WrongPosition`.
pub open spec fn wrong_position_count<T>(secret: Seq<T>, guess: Seq<T>, k: int, c: T) -> nat
    decreases k,
{
    if k <= 0 {
        0
    } else {
        wrong_position_count(secret, guess, k - 1, c) + if guess[k - 1] == c && tile_at(
            secret,
            guess,
            k - 1,
        ) == Tile::WrongPosition {
            1nat
        } else {
            0nat
        }
    }
}

/// Up to position `k`, a letter is shown as `WrongPosition` as often as it
/// stands unmatched in the guess, but never more often than it stands
/// unmatched in the secret.
pub proof fn lemma_wrong_position_budget<T>(secret: Seq<T>, guess: Seq<T>, k: int, c: T)
    requires
        0 <= k <= guess.len(),
    ensures
        wrong_position_count(secret, guess, k, c) == if unmatched_in_guess(secret, guess, k, c)
            < unmatched_in_secret(secret, guess, secret.len() as int, c) {
            unmatched_in_guess(secret, guess, k, c)
        } else {
            unmatched_in_secret(secret, guess, secret.len() as int, c)
        },
        wrong_position_count(secret, guess, k, c) <= unmatched_in_secret(
            secret,
            guess,
            secret.len() as int,
            c,
        ),
    decreases k,
{
    if k > 0 {
        lemma_wrong_position_budget(secret, guess, k - 1, c);
    }
}

/// Comparing a word with itself gives the all-`Correct` clue.
pub proof fn lemma_compare_self<T>(w: Seq<T>)
    ensures
        clue_tiles(w, w).len() == w.len(),
        all_correct_tiles(clue_tiles(w, w)),
{
}

/// Only the secret itself gets the all-`Correct` clue.
pub proof fn lemma_all_correct_only_self<T>(secret: Seq<T>, guess: Seq<T>)
    requires
        secret.len() == guess.len(),
        all_correct_tiles(clue_tiles(secret, guess)),
    ensures
        secret == guess,
{
    assert forall|i: int| 0 <= i < guess.len() implies secret[i] == guess[i] by {
        assert(clue_tiles(secret, guess)[i] == Tile::Correct);
    }
    assert(secret =~= guess);
}

/// Words with the same letters are the same word.
pub proof fn lemma_word_ext<const N: usize>(a: Word<N>, b: Word<N>)
    requires
        a.letters@ == b.letters@,
    ensures
        a == b,
{
    assert forall|i: int| 0 <= i < N implies a.letters[i] == b.letters[i] by {
        assert(a.letters@[i] == b.letters@[i]);
    }
    assert(a.letters =~= b.letters);
}

impl<const N: usize> PartialEq for Word<N> {
    fn eq(&self, other: &Word<N>) -> (r: bool) {
        let mut i: usize = 0;
        while i < N
            invariant
                self.letters@.len() == N,
                other.letters@.len() == N,
                forall|j: int| 0 <= j < i ==> self.letters@[j] == other.letters@[j],
            decreases N - i,
        {
            if self.letters[i] != other.letters[i] {
                return false;
            }
            i = i + 1;
        }
        assert(self.letters@ =~= other.letters@);
        true
    }
}

impl<const N: usize> vstd::std_specs::cmp::PartialEqSpecImpl for Word<N> {
    open spec fn obeys_eq_spec() -> bool {
        true
    }

    open spec fn eq_spec(&self, other: &Word<N>) -> bool {
        self.letters@ == other.letters@
    }
}

impl<const N: usize> PartialEq for Clue<N> {
    fn eq(&self, other: &Clue<N>) -> (r: bool) {
        let mut i: usize = 0;
        while i < N
            invariant
                self.tiles@.len() == N,
                other.tiles@.len() == N,
                forall|j: int| 0 <= j < i ==> self.tiles@[j] == other.tiles@[j],
            decreases N - i,
        {
            if self.tiles[i] != other.tiles[i] {
                return false;
            }
            i = i + 1;
        }
        assert(self.tiles@ =~= other.tiles@);
        true
    }
}

impl<const N: usize> vstd::std_specs::cmp::PartialEqSpecImpl for Clue<N> {
    open spec fn obeys_eq_spec() -> bool {
        true
    }

    open spec fn eq_spec(&self, other: &Clue<N>) -> bool {
        self.tiles@ == other.tiles@
    }
}


/// `3` to the power `n`: the number of distinct clues of `n` tiles.
pub open spec fn pow3(n: nat) -> nat
    decreases n,
{
    if n == 0 {
        1
    } else {
        3 * pow3((n - 1) as nat)
    }
}

/// Clue ids of `n` tiles fit in a `usize`.
pub open spec fn ids_fit(n: usize) -> bool {
    pow3(n as nat) <= usize::MAX
}

/// The base-3 digit of a tile.
pub open spec fn tile_digit(t: Tile) -> nat {
    match t {
        Tile::Correct => 0,
        Tile::WrongPosition => 1,
        Tile::NotPresentInWord => 2,
    }
}

/// The tile of a base-3 digit.
pub open spec fn digit_tile(d: nat) -> Tile {
    if d == 0 {
        Tile::Correct
    } else if d == 1 {
        Tile::WrongPosition
    } else {
        Tile::NotPresentInWord
    }
}

/// The id of a clue: its tiles read as base-3 digits, the first tile the most
/// significant.
pub open spec fn tiles_id(t: Seq<Tile>) -> nat
    decreases t.len(),
{
    if t.len() == 0 {
        0
    } else {
        3 * tiles_id(t.drop_last()) + tile_digit(t.last())
    }
}

/// The `n` tiles whose digits are the lowest `n` base-3 digits of `id`.
pub open spec fn id_tiles(id: nat, n: nat) -> Seq<Tile> {
    Seq::new(n, |i: int| digit_tile((id / pow3((n - 1 - i) as nat)) % 3))
}

pub proof fn lemma_pow3_positive(n: nat)
    ensures
        pow3(n) > 0,
    decreases n,
{
    if n > 0 {
        lemma_pow3_positive((n - 1) as nat);
    }
}

pub proof fn lemma_pow3_monotone(a: nat, b: nat)
    requires
        a <= b,
    ensures
        pow3(a) <= pow3(b),
    decreases b,
{
    if a < b {
        lemma_pow3_monotone(a, (b - 1) as nat);
    }
}

proof fn lemma_tiles_id_bound(t: Seq<Tile>)
    ensures
        tiles_id(t) < pow3(t.len()),
    decreases t.len(),
{
    if t.len() > 0 {
        lemma_tiles_id_bound(t.drop_last());
    }
}

proof fn lemma_id_tiles_step(x: nat, n: nat)
    requires
        n > 0,
    ensures
        id_tiles(x, n) == id_tiles(x / 3, (n - 1) as nat).push(digit_tile(x % 3)),
{
    let a = id_tiles(x, n);
    let b = id_tiles(x / 3, (n - 1) as nat).push(digit_tile(x % 3));
    assert forall|i: int| 0 <= i < n implies a[i] == b[i] by {
        if i < n - 1 {
            let k = (n - 1 - i) as nat;
            let k1 = (n - 2 - i) as nat;
            assert(pow3(k) == 3 * pow3(k1));
            lemma_pow3_positive(k1);
            lemma_div_denominator(x as int, 3, pow3(k1) as int);
            assert(a[i] == b[i]);
        } else {
            assert(pow3(0) == 1);
            assert(x / 1 == x);
            assert(a[i] == b[i]);
        }
    }
    assert(a =~= b);
}

/// Reading the tiles of `id` back gives `id` modulo `3^n`.
pub proof fn lemma_id_of_id_tiles(id: nat, n: nat)
    ensures
        tiles_id(id_tiles(id, n)) == id % pow3(n),
    decreases n,
{
    if n == 0 {
        assert(id_tiles(id, n).len() == 0);
    } else {
        lemma_id_tiles_step(id, n);
        lemma_id_of_id_tiles(id / 3, (n - 1) as nat);
        lemma_pow3_positive((n - 1) as nat);
        lemma_mod_breakdown(id as int, 3, pow3((n - 1) as nat) as int);
        let t = id_tiles(id, n);
        assert(t.drop_last() =~= id_tiles(id / 3, (n - 1) as nat));
    }
}

/// Turning the id of a clue back into tiles gives that clue.
pub proof fn lemma_id_tiles_of_id(t: Seq<Tile>)
    ensures
        id_tiles(tiles_id(t), t.len()) == t,
    decreases t.len(),
{
    if t.len() > 0 {
        let x = tiles_id(t);
        let d = t.drop_last();
        lemma_id_tiles_of_id(d);
        lemma_id_tiles_step(x, t.len());
        assert(x / 3 == tiles_id(d));
        assert(x % 3 == tile_digit(t.last()));
        assert(t =~= d.push(t.last()));
    }
}

/// Every id below `3^n` names a clue whose id is that id again.
pub proof fn lemma_clue_id_round_trip(id: nat, n: nat)
    requires
        id < pow3(n),
    ensures
        tiles_id(id_tiles(id, n)) == id,
{
    lemma_id_of_id_tiles(id, n);
    lemma_small_mod(id, pow3(n));
}

/// Distinct ids below `3^n` name distinct clues, so the `3^n` ids give
/// `3^n` different clues.
pub proof fn lemma_clue_ids_distinct(a: nat, b: nat, n: nat)
    requires
        a < pow3(n),
        b < pow3(n),
        a != b,
    ensures
        id_tiles(a, n) != id_tiles(b, n),
{
    lemma_clue_id_round_trip(a, n);
    lemma_clue_id_round_trip(b, n);
}

/// Every clue of `n` tiles has an id below `3^n`, and that id names it.
pub proof fn lemma_clue_tiles_round_trip(t: Seq<Tile>)
    ensures
        tiles_id(t) < pow3(t.len()),
        id_tiles(tiles_id(t), t.len()) == t,
{
    lemma_tiles_id_bound(t);
    lemma_id_tiles_of_id(t);
}

fn digit_of(t: Tile) -> (r: usize)
    ensures
        r == tile_digit(t),
{
    match t {
        Tile::Correct => 0,
        Tile::WrongPosition => 1,
        Tile::NotPresentInWord => 2,
    }
}

fn tile_of(d: usize) -> (r: Tile)
    ensures
        r == digit_tile(d as nat),
{
    if d == 0 {
        Tile::Correct
    } else if d == 1 {
        Tile::WrongPosition
    } else {
        Tile::NotPresentInWord
    }
}

impl<const N: usize> Clue<N> {
    /// True when every tile is `Correct`.
    pub fn all_correct(&self) -> (r: bool)
        ensures
            r == all_correct_tiles(self.tiles@),
    {
        let mut i: usize = 0;
        while i < N
            invariant
                self.tiles@.len() == N,
                forall|j: int| 0 <= j < i ==> self.tiles@[j] == Tile::Correct,
            decreases N - i,
        {
            if self.tiles[i] != Tile::Correct {
                return false;
            }
            i = i + 1;
        }
        true
    }

    /// The number of distinct clues of `N` tiles.
    pub fn num_clues() -> (r: usize)
        requires
            ids_fit(N),
        ensures
            r == pow3(N as nat),
    {
        let mut r: usize = 1;
        let mut i: usize = 0;
        while i < N
            invariant
                i <= N,
                r == pow3(i as nat),
                ids_fit(N),
            decreases N - i,
        {
            proof {
                lemma_pow3_monotone((i + 1) as nat, N as nat);
            }
            r = 3 * r;
            i = i + 1;
        }
        r
    }

    /// The id of this clue, in `[0, 3^N)`.
    pub fn id(&self) -> (r: usize)
        requires
            ids_fit(N),
        ensures
            r == tiles_id(self.tiles@),
            r < pow3(N as nat),
    {
        let ghost t = self.tiles@;
        let mut acc: usize = 0;
        let mut i: usize = 0;
        while i < N
            invariant
                t == self.tiles@,
                t.len() == N,
                i <= N,
                acc == tiles_id(t.take(i as int)),
                ids_fit(N),
            decreases N - i,
        {
            proof {
                lemma_tiles_id_bound(t.take(i as int));
                lemma_pow3_monotone((i + 1) as nat, N as nat);
                assert(t.take(i + 1).drop_last() =~= t.take(i as int));
            }
            acc = 3 * acc + digit_of(self.tiles[i]);
            i = i + 1;
        }
        proof {
            assert(t.take(N as int) =~= t);
            lemma_tiles_id_bound(t);
        }
        acc
    }

    /// The clue whose tiles are the lowest `N` base-3 digits of `id`.
    pub fn from_id(id: usize) -> (r: Self)
        ensures
            r.tiles@ == id_tiles(id as nat, N as nat),
    {
        let mut tiles = [Tile::NotPresentInWord;N];
        let mut cur: usize = id;
        let mut k: usize = 0;
        assert(pow3(0) == 1 && id as nat / 1 == id as nat);
        while k < N
            invariant
                k <= N,
                tiles@.len() == N,
                cur == id as nat / pow3(k as nat),
                forall|j: int|
                    N - k <= j < N ==> tiles@[j] == digit_tile(
                        (id as nat / pow3((N - 1 - j) as nat)) % 3,
                    ),
            decreases N - k,
        {
            proof {
                lemma_pow3_positive(k as nat);
                lemma_div_denominator(id as int, pow3(k as nat) as int, 3);
                assert(pow3((k + 1) as nat) == pow3(k as nat) * 3);
            }
            tiles[N - 1 - k] = tile_of(cur % 3);
            cur = cur / 3;
            k = k + 1;
        }
        assert(tiles@ =~= id_tiles(id as nat, N as nat));
        Clue { tiles }
    }
}

impl<const N: usize> Word<N> {
    /// Scores `guess` against `self` taken as the secret, in two passes:
    /// the first counts the unmatched letters of the secret, the second hands
    /// them out from left to right.
    pub fn compare_with_guess(&self, guess: Word<N>) -> (r: Clue<N>)
        ensures
            r.tiles@ == clue_tiles(self.letters@, guess.letters@),
    {
        let ghost s = self.letters@;
        let ghost g = guess.letters@;
        let mut tiles = [Tile::NotPresentInWord;N];
        let mut excess: [usize; 256] = vstd::array::array_fill_for_copy_types(0usize);
        assert forall|c: int| 0 <= c < 256 implies #[trigger] excess@[c] == unmatched_in_secret(
            s,
            g,
            0,
            c as u8,
        ) by {
            assert(excess@[c] == 0);
        }
        let mut i: usize = 0;
        while i < N
            invariant
                s.len() == N,
                g.len() == N,
                s == self.letters@,
                g == guess.letters@,
                i <= N,
                excess@.len() == 256,
                forall|c: int|
                    0 <= c < 256 ==> #[trigger] excess@[c] == unmatched_in_secret(
                        s,
                        g,
                        i as int,
                        c as u8,
                    ),
            decreases N - i,
        {
            if guess.letters[i] != self.letters[i] {
                let l = self.letters[i] as usize;
                proof {
                    lemma_unmatched_bound(s, g, i as int, l as u8);
                }
                excess[l] = excess[l] + 1;
            }
            i = i + 1;
        }
        let mut i: usize = 0;
        while i < N
            invariant
                s.len() == N,
                g.len() == N,
                s == self.letters@,
                g == guess.letters@,
                i <= N,
                excess@.len() == 256,
                tiles@.len() == N,
                forall|c: int|
                    0 <= c < 256 ==> #[trigger] excess@[c] == if unmatched_in_guess(
                        s,
                        g,
                        i as int,
                        c as u8,
                    ) < unmatched_in_secret(s, g, N as int, c as u8) {
                        unmatched_in_secret(s, g, N as int, c as u8) - unmatched_in_guess(
                            s,
                            g,
                            i as int,
                            c as u8,
                        )
                    } else {
                        0
                    },
                forall|j: int| 0 <= j < i ==> tiles@[j] == tile_at(s, g, j),
            decreases N - i,
        {
            let l = guess.letters[i] as usize;
            if guess.letters[i] == self.letters[i] {
                tiles[i] = Tile::Correct;
            } else if excess[l] > 0 {
                excess[l] = excess[l] - 1;
                tiles[i] = Tile::WrongPosition;
            } else {
                tiles[i] = Tile::NotPresentInWord;
            }
            i = i + 1;
        }
        assert(tiles@ =~= clue_tiles(s, g));
        Clue { tiles }
    }
}

impl<const N: usize> Word<N> {
    /// The letters in order.
    pub fn iter(&self) -> (r: core::slice::Iter<'_, u8>)
        ensures
            r.remaining() == self.letters@.as_ref(),
    {
        let sl = self.letters.as_slice();
        let r = sl.iter();
        proof {
            vstd::std_specs::slice::axiom_spec_slice_iter(sl);
        }
        r
    }
}

impl<const N: usize> Clue<N> {
    /// The tiles in order.
    pub fn iter(&self) -> (r: core::slice::Iter<'_, Tile>)
        ensures
            r.remaining() == self.tiles@.as_ref(),
    {
        let sl = self.tiles.as_slice();
        let r = sl.iter();
        proof {
            vstd::std_specs::slice::axiom_spec_slice_iter(sl);
        }
        r
    }
}

} // verus!
