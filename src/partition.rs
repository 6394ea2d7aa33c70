use crate::clue::{
    all_correct_tiles, id_tiles, ids_fit, lemma_all_correct_only_self, lemma_clue_id_round_trip,
    lemma_clue_tiles_round_trip, lemma_word_ext, pow3, tiles_id, Word,
};
use crate::game::{narrowed, word_clue};
use vstd::prelude::*;

verus! {

/// The id of the clue that `guess` receives against `secret`.
pub open spec fn clue_id<const N: usize>(secret: Word<N>, guess: Word<N>) -> nat {
    tiles_id(word_clue(secret, guess))
}

/// Number of candidates in `secrets` whose clue for `guess` has id `c`.
pub open spec fn clue_count<const N: usize>(secrets: Seq<Word<N>>, guess: Word<N>, c: int) -> nat
    decreases secrets.len(),
{
    if secrets.len() == 0 {
        0
    } else {
        clue_count(secrets.drop_last(), guess, c) + if clue_id(secrets.last(), guess) == c {
            1nat
        } else {
            0nat
        }
    }
}

/// The sizes of the groups into which `guess` splits `secrets`, indexed by clue id.
pub open spec fn clue_counts<const N: usize>(secrets: Seq<Word<N>>, guess: Word<N>) -> Seq<nat> {
    Seq::new(pow3(N as nat), |c: int| clue_count(secrets, guess, c))
}

/// Sum of the counts.
pub open spec fn seq_sum(s: Seq<nat>) -> nat
    decreases s.len(),
{
    if s.len() == 0 {
        0
    } else {
        seq_sum(s.drop_last()) + s.last()
    }
}

/// The largest count, `0` for none.
pub open spec fn seq_max(s: Seq<nat>) -> nat
    decreases s.len(),
{
    if s.len() == 0 {
        0
    } else if seq_max(s.drop_last()) < s.last() {
        s.last()
    } else {
        seq_max(s.drop_last())
    }
}

/// Number of non-zero counts: the number of distinct clues.
pub open spec fn count_nonzero(s: Seq<nat>) -> nat
    decreases s.len(),
{
    if s.len() == 0 {
        0
    } else {
        count_nonzero(s.drop_last()) + if s.last() > 0 {
            1nat
        } else {
            0nat
        }
    }
}

/// Number of counts equal to one: the clues that single out one candidate.
pub open spec fn count_ones(s: Seq<nat>) -> nat
    decreases s.len(),
{
    if s.len() == 0 {
        0
    } else {
        count_ones(s.drop_last()) + if s.last() == 1 {
            1nat
        } else {
            0nat
        }
    }
}

/// Sum of the squares of the counts.
pub open spec fn sum_squares(s: Seq<nat>) -> nat
    decreases s.len(),
{
    if s.len() == 0 {
        0
    } else {
        sum_squares(s.drop_last()) + s.last() * s.last()
    }
}

/// Number of candidates whose clue id is below `k`.
spec fn count_below<const N: usize>(secrets: Seq<Word<N>>, guess: Word<N>, k: int) -> nat
    decreases secrets.len(),
{
    if secrets.len() == 0 {
        0
    } else {
        count_below(secrets.drop_last(), guess, k) + if clue_id(secrets.last(), guess) < k {
            1nat
        } else {
            0nat
        }
    }
}

proof fn lemma_count_below_step<const N: usize>(secrets: Seq<Word<N>>, guess: Word<N>, k: int)
    requires
        k >= 0,
    ensures
        count_below(secrets, guess, k + 1) == count_below(secrets, guess, k) + clue_count(
            secrets,
            guess,
            k,
        ),
    decreases secrets.len(),
{
    if secrets.len() > 0 {
        lemma_count_below_step(secrets.drop_last(), guess, k);
    }
}

proof fn lemma_count_below_all<const N: usize>(secrets: Seq<Word<N>>, guess: Word<N>)
    ensures
        count_below(secrets, guess, pow3(N as nat) as int) == secrets.len(),
    decreases secrets.len(),
{
    if secrets.len() > 0 {
        lemma_count_below_all(secrets.drop_last(), guess);
        let t = word_clue(secrets.last(), guess);
        lemma_clue_tiles_round_trip(t);
    }
}

/// Summing the group sizes over the first `k` clue ids counts the candidates
/// whose clue id is below `k`.
proof fn lemma_counts_prefix_sum<const N: usize>(secrets: Seq<Word<N>>, guess: Word<N>, k: int)
    requires
        0 <= k <= pow3(N as nat),
    ensures
        seq_sum(clue_counts(secrets, guess).take(k)) == count_below(secrets, guess, k),
    decreases k,
{
    let s = clue_counts(secrets, guess);
    if k == 0 {
        assert(s.take(0).len() == 0);
        lemma_count_below_zero(secrets, guess);
    } else {
        lemma_counts_prefix_sum(secrets, guess, k - 1);
        assert(s.take(k).drop_last() =~= s.take(k - 1));
        lemma_count_below_step(secrets, guess, k - 1);
    }
}

proof fn lemma_count_below_zero<const N: usize>(secrets: Seq<Word<N>>, guess: Word<N>)
    ensures
        count_below(secrets, guess, 0) == 0,
    decreases secrets.len(),
{
    if secrets.len() > 0 {
        lemma_count_below_zero(secrets.drop_last(), guess);
    }
}

/// The groups into which a guess splits the candidates account for every
/// candidate exactly once.
pub proof fn lemma_counts_sum<const N: usize>(secrets: Seq<Word<N>>, guess: Word<N>)
    ensures
        seq_sum(clue_counts(secrets, guess)) == secrets.len(),
{
    let s = clue_counts(secrets, guess);
    lemma_counts_prefix_sum(secrets, guess, pow3(N as nat) as int);
    assert(s.take(pow3(N as nat) as int) =~= s);
    lemma_count_below_all(secrets, guess);
}

/// The sum of squares is at most the largest count times the sum.
proof fn lemma_sum_squares_bound(s: Seq<nat>, m: nat)
    requires
        forall|i: int| 0 <= i < s.len() ==> s[i] <= m,
    ensures
        sum_squares(s) <= m * seq_sum(s),
    decreases s.len(),
{
    if s.len() > 0 {
        lemma_sum_squares_bound(s.drop_last(), m);
        let x = s.last();
        assert(x * x <= m * x) by (nonlinear_arith)
            requires
                x <= m,
        ;
        assert(m * seq_sum(s) == m * seq_sum(s.drop_last()) + m * x) by (nonlinear_arith)
            requires
                seq_sum(s) == seq_sum(s.drop_last()) + x,
        ;
    }
}

proof fn lemma_sum_prefix_bound(s: Seq<nat>, i: int)
    requires
        0 <= i <= s.len(),
    ensures
        seq_sum(s.take(i)) <= seq_sum(s),
    decreases s.len() - i,
{
    if i < s.len() {
        lemma_sum_prefix_bound(s, i + 1);
        assert(s.take(i + 1).drop_last() =~= s.take(i));
    } else {
        assert(s.take(i) =~= s);
    }
}

proof fn lemma_count_le_sum(s: Seq<nat>, i: int)
    requires
        0 <= i < s.len(),
    ensures
        s[i] <= seq_sum(s),
    decreases s.len(),
{
    if i < s.len() - 1 {
        lemma_count_le_sum(s.drop_last(), i);
    }
}

/// The clue with id `c` leaves exactly the candidates counted under `c`.
pub proof fn lemma_narrowed_len<const N: usize>(secrets: Seq<Word<N>>, guess: Word<N>, c: nat)
    requires
        c < pow3(N as nat),
    ensures
        narrowed(secrets, guess, id_tiles(c, N as nat)).len() == clue_count(
            secrets,
            guess,
            c as int,
        ),
    decreases secrets.len(),
{
    reveal(Seq::filter);
    if secrets.len() > 0 {
        lemma_narrowed_len(secrets.drop_last(), guess, c);
        let t = word_clue(secrets.last(), guess);
        lemma_clue_tiles_round_trip(t);
        lemma_clue_id_round_trip(c, N as nat);
        assert(t.len() == N);
    }
}

/// A candidate's own group is not empty, and its clue is the clue that its
/// id names.
pub proof fn lemma_member_clue<const N: usize>(
    secrets: Seq<Word<N>>,
    guess: Word<N>,
    w: Word<N>,
    c: nat,
)
    requires
        secrets.contains(w),
        clue_id(w, guess) == c,
    ensures
        clue_count(secrets, guess, c as int) > 0,
        word_clue(w, guess) == id_tiles(c, N as nat),
        c < pow3(N as nat),
    decreases secrets.len(),
{
    lemma_clue_tiles_round_trip(word_clue(w, guess));
    if secrets.last() != w {
        let i = choose|i: int| 0 <= i < secrets.len() && secrets[i] == w;
        assert(secrets.drop_last()[i] == w);
        lemma_member_clue(secrets.drop_last(), guess, w, c);
    }
}


proof fn lemma_push_no_duplicates<A>(t: Seq<A>, x: A)
    requires
        t.no_duplicates(),
        !t.contains(x),
    ensures
        t.push(x).no_duplicates(),
{
    let u = t.push(x);
    assert forall|i: int, j: int| 0 <= i < u.len() && 0 <= j < u.len() && i != j implies u[i]
        != u[j] by {
        if i < t.len() && j < t.len() {
            assert(u[i] == t[i] && u[j] == t[j]);
        } else if i < t.len() {
            assert(u[i] == t[i]);
        } else {
            assert(u[j] == t[j]);
        }
    }
}

/// Filtering keeps a sequence free of duplicates.
pub proof fn lemma_filter_no_duplicates<A>(s: Seq<A>, pred: spec_fn(A) -> bool)
    requires
        s.no_duplicates(),
    ensures
        s.filter(pred).no_duplicates(),
    decreases s.len(),
{
    reveal(Seq::filter);
    if s.len() > 0 {
        let d = s.drop_last();
        assert(d.no_duplicates()) by {
            assert forall|i: int, j: int| 0 <= i < d.len() && 0 <= j < d.len() && i != j implies d[i]
                != d[j] by {
                assert(d[i] == s[i] && d[j] == s[j]);
            }
        }
        lemma_filter_no_duplicates(d, pred);
        if pred(s.last()) {
            if d.filter(pred).contains(s.last()) {
                d.lemma_filter_contains_rev(pred, s.last());
                let i = choose|i: int| 0 <= i < d.len() && d[i] == s.last();
                assert(s[i] == s[s.len() - 1]);
            }
            lemma_push_no_duplicates(d.filter(pred), s.last());
        }
    }
}

/// Without duplicate candidates, the group of the all-`Correct` clue holds
/// at most the guess itself.
pub proof fn lemma_solved_group_single<const N: usize>(secrets: Seq<Word<N>>, guess: Word<N>, c: nat)
    requires
        secrets.no_duplicates(),
        c < pow3(N as nat),
        all_correct_tiles(id_tiles(c, N as nat)),
    ensures
        clue_count(secrets, guess, c as int) <= 1,
    decreases secrets.len(),
{
    if secrets.len() > 0 {
        let d = secrets.drop_last();
        assert(d.no_duplicates()) by {
            assert forall|i: int, j: int| 0 <= i < d.len() && 0 <= j < d.len() && i != j implies d[i]
                != d[j] by {
                assert(d[i] == secrets[i] && d[j] == secrets[j]);
            }
        }
        lemma_solved_group_single(d, guess, c);
        let x = secrets.last();
        if clue_id(x, guess) == c && clue_count(d, guess, c as int) > 0 {
            assert(secrets.contains(x));
            lemma_member_clue(secrets, guess, x, c);
            lemma_all_correct_only_self(x.letters@, guess.letters@);
            lemma_word_ext(x, guess);
            lemma_count_witness(d, guess, c as int);
            let i = choose|i: int| 0 <= i < d.len() && clue_id(d[i], guess) == c;
            let y = d[i];
            assert(d.contains(y));
            lemma_member_clue(d, guess, y, c);
            lemma_all_correct_only_self(y.letters@, guess.letters@);
            lemma_word_ext(y, guess);
            assert(secrets[i] == secrets[secrets.len() - 1]);
        }
    }
}

/// A non-empty group has a member.
pub proof fn lemma_count_witness<const N: usize>(secrets: Seq<Word<N>>, guess: Word<N>, c: int)
    requires
        clue_count(secrets, guess, c) > 0,
    ensures
        exists|i: int| 0 <= i < secrets.len() && clue_id(secrets[i], guess) == c,
    decreases secrets.len(),
{
    if clue_id(secrets.last(), guess) != c {
        lemma_count_witness(secrets.drop_last(), guess, c);
        let i = choose|i: int|
            0 <= i < secrets.drop_last().len() && clue_id(secrets.drop_last()[i], guess) == c;
        assert(secrets[i] == secrets.drop_last()[i]);
    } else {
        assert(clue_id(secrets[secrets.len() - 1], guess) == c);
    }
}

/// Counts, for each clue id, the candidates that give that clue for `guess`.
pub fn count_clues<const N: usize>(secrets: &Vec<Word<N>>, guess: &Word<N>) -> (r: Vec<usize>)
    requires
        ids_fit(N),
    ensures
        r@.len() == pow3(N as nat),
        forall|c: int| 0 <= c < r@.len() ==> r@[c] == clue_count(secrets@, *guess, c),
{
    let n = crate::clue::Clue::<N>::num_clues();
    let mut counts: Vec<usize> = Vec::new();
    let mut c: usize = 0;
    while c < n
        invariant
            c <= n,
            counts@.len() == c,
            forall|j: int| 0 <= j < c ==> counts@[j] == 0,
        decreases n - c,
    {
        counts.push(0);
        c = c + 1;
    }
    let mut i: usize = 0;
    while i < secrets.len()
        invariant
            ids_fit(N),
            i <= secrets.len(),
            counts@.len() == n,
            n == pow3(N as nat),
            forall|j: int|
                0 <= j < n ==> #[trigger] counts@[j] == clue_count(
                    secrets@.take(i as int),
                    *guess,
                    j,
                ),
            forall|j: int| 0 <= j < n ==> #[trigger] counts@[j] <= i,
        decreases secrets.len() - i,
    {
        let clue = secrets[i].compare_with_guess(*guess);
        let id = clue.id();
        proof {
            assert(secrets@.take(i + 1).drop_last() =~= secrets@.take(i as int));
        }
        counts.set(id, counts[id] + 1);
        i = i + 1;
    }
    assert(secrets@.take(secrets.len() as int) =~= secrets@);
    counts
}

/// The largest group: the most candidates that could remain after `guess`.
pub fn max_count(counts: &Vec<usize>) -> (r: usize)
    ensures
        r == seq_max(counts@.map_values(|x: usize| x as nat)),
{
    let ghost s = counts@.map_values(|x: usize| x as nat);
    let mut m: usize = 0;
    let mut i: usize = 0;
    while i < counts.len()
        invariant
            i <= counts.len(),
            s == counts@.map_values(|x: usize| x as nat),
            m == seq_max(s.take(i as int)),
        decreases counts.len() - i,
    {
        assert(s.take(i + 1).drop_last() =~= s.take(i as int));
        if m < counts[i] {
            m = counts[i];
        }
        i = i + 1;
    }
    assert(s.take(counts.len() as int) =~= s);
    m
}

/// The number of non-empty groups: how many distinct clues `guess` can get.
pub fn nonzero_count(counts: &Vec<usize>) -> (r: usize)
    ensures
        r == count_nonzero(counts@.map_values(|x: usize| x as nat)),
{
    let ghost s = counts@.map_values(|x: usize| x as nat);
    let mut m: usize = 0;
    let mut i: usize = 0;
    while i < counts.len()
        invariant
            i <= counts.len(),
            s == counts@.map_values(|x: usize| x as nat),
            m == count_nonzero(s.take(i as int)),
            m <= i,
        decreases counts.len() - i,
    {
        assert(s.take(i + 1).drop_last() =~= s.take(i as int));
        if counts[i] > 0 {
            m = m + 1;
        }
        i = i + 1;
    }
    assert(s.take(counts.len() as int) =~= s);
    m
}

/// The number of groups of exactly one candidate.
pub fn ones_count(counts: &Vec<usize>) -> (r: usize)
    ensures
        r == count_ones(counts@.map_values(|x: usize| x as nat)),
{
    let ghost s = counts@.map_values(|x: usize| x as nat);
    let mut m: usize = 0;
    let mut i: usize = 0;
    while i < counts.len()
        invariant
            i <= counts.len(),
            s == counts@.map_values(|x: usize| x as nat),
            m == count_ones(s.take(i as int)),
            m <= i,
        decreases counts.len() - i,
    {
        assert(s.take(i + 1).drop_last() =~= s.take(i as int));
        if counts[i] == 1 {
            m = m + 1;
        }
        i = i + 1;
    }
    assert(s.take(counts.len() as int) =~= s);
    m
}

/// The sum of the squared group sizes, for counts whose sum fits in a `usize`.
pub fn squares_sum(counts: &Vec<usize>) -> (r: u128)
    requires
        seq_sum(counts@.map_values(|x: usize| x as nat)) <= usize::MAX,
    ensures
        r == sum_squares(counts@.map_values(|x: usize| x as nat)),
{
    let ghost s = counts@.map_values(|x: usize| x as nat);
    let ghost total = Ghost(seq_sum(s));
    let mut m: u128 = 0;
    let mut i: usize = 0;
    proof {
        assert forall|j: int| 0 <= j < s.len() implies s[j] <= total@ by {
            lemma_count_le_sum(s, j);
        }
    }
    while i < counts.len()
        invariant
            i <= counts.len(),
            s == counts@.map_values(|x: usize| x as nat),
            seq_sum(s) <= total@,
            total@ <= usize::MAX,
            forall|j: int| 0 <= j < s.len() ==> s[j] <= total@,
            m == sum_squares(s.take(i as int)),
        decreases counts.len() - i,
    {
        let ghost t = s.take(i + 1);
        proof {
            assert(t.drop_last() =~= s.take(i as int));
            lemma_sum_squares_bound(t, total@);
            lemma_sum_prefix_bound(s, i + 1);
            let tt = total@;
            assert(tt * seq_sum(t) <= tt * tt) by (nonlinear_arith)
                requires
                    seq_sum(t) <= tt,
            ;
            assert(tt * tt <= u128::MAX) by (nonlinear_arith)
                requires
                    tt <= usize::MAX,
            ;
        }
        let x = counts[i] as u128;
        m = m + x * x;
        i = i + 1;
    }
    assert(s.take(counts.len() as int) =~= s);
    m
}

} // verus!
