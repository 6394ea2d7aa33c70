use crate::clue::Word;
use crate::error::Error;
use crate::game::GameState;
use crate::notation::{chars_of, is_alpha, letter_value};
use vstd::prelude::*;

verus! {

/// The strings of `words` that have `n` characters, in order.
pub open spec fn of_length(words: Seq<String>, n: nat) -> Seq<String> {
    words.filter(|w: String| w@.len() == n)
}

/// Every character of `s` is an ASCII letter.
pub open spec fn all_alpha(s: Seq<char>) -> bool {
    forall|i: int| 0 <= i < s.len() ==> is_alpha(#[trigger] s[i])
}

/// `ws` are the words that `strs` spell, in order.
pub open spec fn spells<const N: usize>(ws: Seq<Word<N>>, strs: Seq<String>) -> bool {
    &&& ws.len() == strs.len()
    &&& forall|i: int|
        0 <= i < ws.len() ==> (#[trigger] ws[i]).letters@ == strs[i]@.map_values(
            |c: char| letter_value(c),
        )
}

/// Reads the strings of `N` characters of `words`; other lengths are skipped.
/// Fails on the first kept string with a character that is not a letter.
pub fn collect_words<const N: usize>(words: &Vec<String>) -> (r: Result<Vec<Word<N>>, Error>)
    ensures
        (forall|i: int|
            0 <= i < of_length(words@, N as nat).len() ==> all_alpha(
                (#[trigger] of_length(words@, N as nat)[i])@,
            )) ==> (r matches Ok(ws) && spells(ws@, of_length(words@, N as nat))),
        !(forall|i: int|
            0 <= i < of_length(words@, N as nat).len() ==> all_alpha(
                (#[trigger] of_length(words@, N as nat)[i])@,
            )) ==> r matches Err(Error::InvalidString(_)),
{
    let ghost pred = |w: String| w@.len() == N as nat;
    let mut out: Vec<Word<N>> = Vec::new();
    let mut i: usize = 0;
    while i < words.len()
        invariant
            i <= words@.len(),
            pred == (|w: String| w@.len() == N as nat),
            spells(out@, words@.take(i as int).filter(pred)),
            forall|k: int|
                0 <= k < words@.take(i as int).filter(pred).len() ==> all_alpha(
                    (#[trigger] words@.take(i as int).filter(pred)[k])@,
                ),
        decreases words.len() - i,
    {
        let ghost before = words@.take(i as int).filter(pred);
        proof {
            reveal(Seq::filter);
            assert(words@.take(i + 1).drop_last() =~= words@.take(i as int));
        }
        let w = &words[i];
        if chars_of(w.as_str()).len() == N {
            match Word::<N>::parse(w.as_str()) {
                Ok(word) => {
                    out.push(word);
                    proof {
                        let after = words@.take(i + 1).filter(pred);
                        assert(after == before.push(*w));
                        assert forall|k: int| 0 <= k < out@.len() implies (
                        #[trigger] out@[k]).letters@ == after[k]@.map_values(
                            |c: char| letter_value(c),
                        ) by {
                            if k < before.len() {
                                assert(out@[k] == out@.drop_last()[k]);
                            }
                        }
                    }
                },
                Err(e) => {
                    proof {
                        let after = words@.take(i + 1).filter(pred);
                        assert(after == before.push(*w));
                        assert(!all_alpha(w@));
                        let full = of_length(words@, N as nat);
                        assert(words@ =~= words@.take(i + 1) + words@.skip(i + 1));
                        words@.take(i + 1).lemma_filter_contains(pred, i as int);
                        let idx = choose|idx: int| 0 <= idx < full.len() && full[idx] == *w;
                        lemma_filter_prefix(words@, pred, i + 1);
                        assert(full[after.len() - 1] == *w);
                    }
                    return Err(e);
                },
            }
        }
        i = i + 1;
    }
    assert(words@.take(words.len() as int) =~= words@);
    Ok(out)
}

/// Filtering a prefix gives a prefix of the filtered sequence.
proof fn lemma_filter_prefix<A>(s: Seq<A>, pred: spec_fn(A) -> bool, k: int)
    requires
        0 <= k <= s.len(),
    ensures
        s.take(k).filter(pred).len() <= s.filter(pred).len(),
        forall|j: int|
            0 <= j < s.take(k).filter(pred).len() ==> s.take(k).filter(pred)[j] == #[trigger] s.filter(
                pred,
            )[j],
    decreases s.len() - k,
{
    if k < s.len() {
        lemma_filter_prefix(s, pred, k + 1);
        reveal(Seq::filter);
        assert(s.take(k + 1).drop_last() =~= s.take(k));
    } else {
        assert(s.take(k) =~= s);
    }
}

impl<const N: usize> GameState<N> {
    /// A fresh game whose allowed guesses and possible secrets are both the
    /// words of `N` letters among `words`.
    pub fn from_iter(words: &Vec<String>) -> (r: Result<Self, Error>)
        ensures
            (forall|i: int|
                0 <= i < of_length(words@, N as nat).len() ==> all_alpha(
                    (#[trigger] of_length(words@, N as nat)[i])@,
                )) ==> (r matches Ok(st) && !st.made_correct_guess && spells(
                st.allowed_guesses@,
                of_length(words@, N as nat),
            ) && st.possible_secrets@ == st.allowed_guesses@),
            !(forall|i: int|
                0 <= i < of_length(words@, N as nat).len() ==> all_alpha(
                    (#[trigger] of_length(words@, N as nat)[i])@,
                )) ==> r matches Err(Error::InvalidString(_)),
    {
        let words = collect_words::<N>(words)?;
        Ok(GameState {
            made_correct_guess: false,
            allowed_guesses: crate::game::copy_words(&words),
            possible_secrets: words,
        })
    }
}

/// The lines of `b`: the pieces between newline bytes, the last one possibly
/// empty.
pub open spec fn split_lines(b: Seq<u8>) -> Seq<Seq<u8>>
    decreases b.len(),
{
    if b.len() == 0 {
        seq![Seq::empty()]
    } else {
        let prev = split_lines(b.drop_last());
        if b.last() == 10 {
            prev.push(Seq::empty())
        } else {
            prev.update(prev.len() - 1, prev.last().push(b.last()))
        }
    }
}

/// `b` is an ASCII letter.
pub open spec fn is_alpha_byte(b: u8) -> bool {
    (65 <= b && b <= 90) || (97 <= b && b <= 122)
}

/// The letter value of an ASCII letter byte, either case.
pub open spec fn byte_letter(b: u8) -> u8 {
    if 97 <= b {
        (b - 97) as u8
    } else {
        (b - 65) as u8
    }
}

/// The lines of `N` bytes of `b`, in order.
pub open spec fn word_lines(b: Seq<u8>, n: nat) -> Seq<Seq<u8>> {
    split_lines(b).filter(|l: Seq<u8>| l.len() == n)
}

/// Every byte of every line is an ASCII letter.
pub open spec fn lines_alpha(lines: Seq<Seq<u8>>) -> bool {
    forall|i: int, k: int|
        0 <= i < lines.len() && 0 <= k < lines[i].len() ==> is_alpha_byte(#[trigger] lines[i][k])
}

/// `ws` are the words that the lines `lines` spell, in order.
pub open spec fn spells_lines<const N: usize>(ws: Seq<Word<N>>, lines: Seq<Seq<u8>>) -> bool {
    &&& ws.len() == lines.len()
    &&& forall|i: int|
        0 <= i < ws.len() ==> (#[trigger] ws[i]).letters@ == lines[i].map_values(
            |b: u8| byte_letter(b),
        )
}

/// Relies on `String::from_utf8_lossy`: the text of a line, for an error message.
#[verifier::external_body]
fn line_text(line: &Vec<u8>) -> String {
    String::from_utf8_lossy(line.as_slice()).into_owned()
}

/// The word a line of `N` bytes spells, or the line's text when a byte is
/// not a letter.
fn word_of_line<const N: usize>(line: &Vec<u8>) -> (r: Result<Word<N>, Error>)
    requires
        line@.len() == N,
    ensures
        (forall|k: int| 0 <= k < line@.len() ==> is_alpha_byte(#[trigger] line@[k])) ==> (r matches Ok(
            w,
        ) && w.letters@ == line@.map_values(|b: u8| byte_letter(b))),
        !(forall|k: int| 0 <= k < line@.len() ==> is_alpha_byte(#[trigger] line@[k])) ==> r matches Err(
            Error::InvalidString(_),
        ),
{
    let mut letters = [0u8;N];
    let mut k: usize = 0;
    while k < N
        invariant
            k <= N,
            line@.len() == N,
            letters@.len() == N,
            forall|j: int| 0 <= j < k ==> is_alpha_byte(#[trigger] line@[j]),
            forall|j: int| 0 <= j < k ==> letters@[j] == byte_letter(line@[j]),
        decreases N - k,
    {
        let b = line[k];
        if !((65 <= b && b <= 90) || (97 <= b && b <= 122)) {
            return Err(Error::InvalidString(line_text(line)));
        }
        letters[k] = if 97 <= b {
            b - 97
        } else {
            b - 65
        };
        k = k + 1;
    }
    assert(letters@ =~= line@.map_values(|b: u8| byte_letter(b)));
    Ok(Word { letters })
}

/// The lines of `bytes`, split at each newline byte.
fn split_bytes(bytes: &[u8]) -> (r: Vec<Vec<u8>>)
    ensures
        r@.map_values(|v: Vec<u8>| v@) == split_lines(bytes@),
{
    let mut done: Vec<Vec<u8>> = Vec::new();
    let mut cur: Vec<u8> = Vec::new();
    let mut i: usize = 0;
    assert(bytes@.take(0) =~= Seq::<u8>::empty());
    assert(split_lines(bytes@.take(0)) =~= done@.map_values(|v: Vec<u8>| v@).push(cur@));
    while i < bytes.len()
        invariant
            i <= bytes@.len(),
            split_lines(bytes@.take(i as int)) == done@.map_values(|v: Vec<u8>| v@).push(cur@),
        decreases bytes.len() - i,
    {
        assert(bytes@.take(i + 1).drop_last() =~= bytes@.take(i as int));
        let b = bytes[i];
        if b == 10 {
            let line = cur;
            let ghost old_done = done@;
            done.push(line);
            cur = Vec::new();
            assert(done@.map_values(|v: Vec<u8>| v@) =~= old_done.map_values(|v: Vec<u8>| v@).push(
                line@,
            ));
            assert(split_lines(bytes@.take(i + 1)) =~= done@.map_values(|v: Vec<u8>| v@).push(
                cur@,
            ));
        } else {
            cur.push(b);
            assert(split_lines(bytes@.take(i + 1)) =~= done@.map_values(|v: Vec<u8>| v@).push(
                cur@,
            ));
        }
        i = i + 1;
    }
    assert(bytes@.take(bytes.len() as int) =~= bytes@);
    let ghost old_done = done@;
    done.push(cur);
    assert(done@.map_values(|v: Vec<u8>| v@) =~= old_done.map_values(|v: Vec<u8>| v@).push(
        done@.last()@,
    ));
    done
}

impl<const N: usize> GameState<N> {
    /// The words of the lines of `N` bytes in newline-separated text; other
    /// lines are skipped. Fails when a kept line has a byte that is not an
    /// ASCII letter.
    pub fn words_from_bytes(bytes: &[u8]) -> (r: Result<Vec<Word<N>>, Error>)
        ensures
            lines_alpha(word_lines(bytes@, N as nat)) ==> (r matches Ok(ws) && spells_lines(
                ws@,
                word_lines(bytes@, N as nat),
            )),
            !lines_alpha(word_lines(bytes@, N as nat)) ==> r matches Err(Error::InvalidString(_)),
    {
        let lines = split_bytes(bytes);
        let ghost all = lines@.map_values(|v: Vec<u8>| v@);
        let ghost pred = |l: Seq<u8>| l.len() == N as nat;
        let mut out: Vec<Word<N>> = Vec::new();
        let mut i: usize = 0;
        while i < lines.len()
            invariant
                i <= lines@.len(),
                all == lines@.map_values(|v: Vec<u8>| v@),
                all == split_lines(bytes@),
                pred == (|l: Seq<u8>| l.len() == N as nat),
                spells_lines(out@, all.take(i as int).filter(pred)),
                lines_alpha(all.take(i as int).filter(pred)),
            decreases lines.len() - i,
        {
            let ghost before = all.take(i as int).filter(pred);
            proof {
                reveal(Seq::filter);
                assert(all.take(i + 1).drop_last() =~= all.take(i as int));
            }
            let line = &lines[i];
            if line.len() == N {
                let ghost after = all.take(i + 1).filter(pred);
                assert(after == before.push(line@));
                match word_of_line::<N>(line) {
                    Ok(w) => {
                        out.push(w);
                        proof {
                            assert forall|k: int| 0 <= k < out@.len() implies (
                            #[trigger] out@[k]).letters@ == after[k].map_values(
                                |b: u8| byte_letter(b),
                            ) by {
                                if k < before.len() {
                                    assert(out@[k] == out@.drop_last()[k]);
                                }
                            }
                            assert forall|a: int, k: int|
                                0 <= a < after.len() && 0 <= k < after[a].len() implies is_alpha_byte(
                                #[trigger] after[a][k],
                            ) by {
                                if a < before.len() {
                                    assert(after[a] == before[a]);
                                }
                            }
                        }
                    },
                    Err(e) => {
                        proof {
                            let full = word_lines(bytes@, N as nat);
                            lemma_filter_prefix(all, pred, i + 1);
                            let k = choose|k: int|
                                0 <= k < line@.len() && !is_alpha_byte(#[trigger] line@[k]);
                            assert(full[after.len() - 1] == line@);
                            assert(!is_alpha_byte(full[after.len() - 1][k]));
                        }
                        return Err(e);
                    },
                }
            }
            i = i + 1;
        }
        assert(all.take(lines.len() as int) =~= all);
        Ok(out)
    }
}

} // verus!
