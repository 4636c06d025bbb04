use vstd::prelude::*;

use crate::word::{ParseError, Word};
use vstd::string::{StrSliceExecFns, StringExecFns};

verus! {

/// The mark that one position of a guess receives.
#[derive(Clone, Copy, Debug, Hash, PartialEq, Eq, Structural, PartialOrd, Ord)]
pub enum LetterHint {
    Green,
    Yellow,
    Black,
}

/// The marks for a whole guess, one per position.
#[derive(Clone, Copy, Debug, Hash, Eq, PartialOrd, Ord)]
pub struct Hint<const N: usize>(pub [LetterHint; N]);

impl<const N: usize> View for Hint<N> {
    type V = Seq<LetterHint>;

    open spec fn view(&self) -> Seq<LetterHint> {
        self.0@
    }
}

impl<const N: usize> PartialEq for Hint<N> {
    fn eq(&self, other: &Hint<N>) -> (r: bool) {
        let mut i: usize = 0;
        while i < N
            invariant
                i <= N,
                self@.len() == N,
                other@.len() == N,
                forall|j: int| 0 <= j < i ==> self@[j] == other@[j],
            decreases N - i,
        {
            if self.0[i] != other.0[i] {
                return false;
            }
            i = i + 1;
        }
        assert(self@ =~= other@);
        true
    }
}

impl<const N: usize> vstd::std_specs::cmp::PartialEqSpecImpl for Hint<N> {
    open spec fn obeys_eq_spec() -> bool {
        true
    }

    open spec fn eq_spec(&self, other: &Hint<N>) -> bool {
        self@ == other@
    }
}

/// Whether every mark of `h` is Green.
pub open spec fn is_all_green(h: Seq<LetterHint>) -> bool {
    forall|i: int| 0 <= i < h.len() ==> h[i] == LetterHint::Green
}

/// The mark that a character stands for, in either case: G, Y or B.
pub open spec fn mark_of_char(c: char) -> Option<LetterHint> {
    if c == 'G' || c == 'g' {
        Some(LetterHint::Green)
    } else if c == 'Y' || c == 'y' {
        Some(LetterHint::Yellow)
    } else if c == 'B' || c == 'b' {
        Some(LetterHint::Black)
    } else {
        None
    }
}

/// The upper-case character of a mark.
pub open spec fn char_of_mark(m: LetterHint) -> char {
    match m {
        LetterHint::Green => 'G',
        LetterHint::Yellow => 'Y',
        LetterHint::Black => 'B',
    }
}

/// Whether `s` spells a hint of `n` marks.
pub open spec fn is_hint_text(s: Seq<char>, n: nat) -> bool {
    &&& s.len() == n
    &&& forall|i: int| 0 <= i < s.len() ==> (#[trigger] mark_of_char(s[i])) is Some
}

/// The marks spelled by `s`.
pub open spec fn hint_of_text(s: Seq<char>) -> Seq<LetterHint> {
    s.map_values(|c: char| mark_of_char(c)->0)
}

impl<const N: usize> Hint<N> {
    /// Reads a hint of exactly `N` characters, each G, Y or B in either case.
    pub fn parse(s: &str) -> (r: Result<Hint<N>, ParseError>)
        ensures
            r is Ok <==> is_hint_text(s@, N as nat),
            r matches Ok(h) ==> h@ == hint_of_text(s@),
            r == Err::<Hint<N>, _>(ParseError::WrongLength) <==> s@.len() != N,
    {
        let len = s.unicode_len();
        if len != N {
            return Err(ParseError::WrongLength);
        }
        let mut marks: [LetterHint; N] = [LetterHint::Black; N];
        let mut i: usize = 0;
        while i < N
            invariant
                i <= N,
                s@.len() == N,
                marks@.len() == N,
                forall|j: int| 0 <= j < i ==> (#[trigger] mark_of_char(s@[j])) is Some,
                forall|j: int| 0 <= j < i ==> #[trigger] marks@[j] == mark_of_char(s@[j])->0,
            decreases N - i,
        {
            let c = s.get_char(i);
            if c == 'G' || c == 'g' {
                marks[i] = LetterHint::Green;
            } else if c == 'Y' || c == 'y' {
                marks[i] = LetterHint::Yellow;
            } else if c == 'B' || c == 'b' {
                marks[i] = LetterHint::Black;
            } else {
                assert(mark_of_char(s@[i as int]) is None);
                return Err(ParseError::InvalidCharacter);
            }
            i = i + 1;
        }
        assert(marks@ =~= hint_of_text(s@));
        Ok(Hint(marks))
    }

    /// The hint written as text, one upper-case G, Y or B per mark.
    pub fn to_text(&self) -> (r: String)
        ensures
            r@ == self@.map_values(|m: LetterHint| char_of_mark(m)),
    {
        let mut out = String::new();
        let mut i: usize = 0;
        while i < N
            invariant
                i <= N,
                self@.len() == N,
                out@ == self@.take(i as int).map_values(|m: LetterHint| char_of_mark(m)),
            decreases N - i,
        {
            proof {
                reveal_strlit("G");
                reveal_strlit("Y");
                reveal_strlit("B");
            }
            match self.0[i] {
                LetterHint::Green => out.append("G"),
                LetterHint::Yellow => out.append("Y"),
                LetterHint::Black => out.append("B"),
            }
            i = i + 1;
            proof {
                assert(out@ =~= self@.take(i as int).map_values(|m: LetterHint| char_of_mark(m)));
            }
        }
        proof {
            assert(self@.take(i as int) =~= self@);
        }
        out
    }

    /// Whether every mark is Green: the guess was the secret.
    pub fn is_win(&self) -> (r: bool)
        ensures
            r == is_all_green(self@),
    {
        let mut i: usize = 0;
        while i < N
            invariant
                i <= N,
                self@.len() == N,
                forall|j: int| 0 <= j < i ==> self@[j] == LetterHint::Green,
            decreases N - i,
        {
            if self.0[i] != LetterHint::Green {
                return false;
            }
            i = i + 1;
        }
        true
    }
}

impl<const N: usize> core::str::FromStr for Hint<N> {
    type Err = ParseError;

    fn from_str(s: &str) -> Result<Hint<N>, ParseError> {
        Hint::parse(s)
    }
}

/// Positions below `n` where `secret` holds `v` and the guess does not match it.
pub open spec fn unmatched_before(secret: Seq<u8>, guess: Seq<u8>, v: u8, n: int) -> nat
    decreases n,
{
    if n <= 0 {
        0
    } else {
        unmatched_before(secret, guess, v, n - 1) + if secret[n - 1] == v && guess[n - 1]
            != secret[n - 1] {
            1nat
        } else {
            0nat
        }
    }
}

/// Positions below `n` where `guess` holds `v` and does not match the secret.
pub open spec fn misplaced_before(secret: Seq<u8>, guess: Seq<u8>, v: u8, n: int) -> nat
    decreases n,
{
    if n <= 0 {
        0
    } else {
        misplaced_before(secret, guess, v, n - 1) + if guess[n - 1] == v && guess[n - 1]
            != secret[n - 1] {
            1nat
        } else {
            0nat
        }
    }
}

/// The mark of position `i`: Green on an exact match; otherwise Yellow while
/// the secret still has unmatched copies of the letter for the guess's
/// unmatched copies so far, taken from the left; otherwise Black.
pub open spec fn letter_hint_spec(secret: Seq<u8>, guess: Seq<u8>, i: int) -> LetterHint {
    if guess[i] == secret[i] {
        LetterHint::Green
    } else if misplaced_before(secret, guess, guess[i], i) < unmatched_before(
        secret,
        guess,
        guess[i],
        secret.len() as int,
    ) {
        LetterHint::Yellow
    } else {
        LetterHint::Black
    }
}

/// The hint that `guess` receives when the answer is `secret`.
pub open spec fn hint_spec(secret: Seq<u8>, guess: Seq<u8>) -> Seq<LetterHint> {
    Seq::new(guess.len(), |i: int| letter_hint_spec(secret, guess, i))
}

/// Positions below `n` where `s` holds `v`.
pub open spec fn count_before(s: Seq<u8>, v: u8, n: int) -> nat
    decreases n,
{
    if n <= 0 {
        0
    } else {
        count_before(s, v, n - 1) + if s[n - 1] == v {
            1nat
        } else {
            0nat
        }
    }
}

/// Positions below `n` where `guess` holds `v` and its mark is Green or Yellow.
pub open spec fn marked_before(secret: Seq<u8>, guess: Seq<u8>, v: u8, n: int) -> nat
    decreases n,
{
    if n <= 0 {
        0
    } else {
        marked_before(secret, guess, v, n - 1) + if guess[n - 1] == v && letter_hint_spec(
            secret,
            guess,
            n - 1,
        ) != LetterHint::Black {
            1nat
        } else {
            0nat
        }
    }
}

/// Positions below `n` where both words hold `v`.
spec fn matched_before(secret: Seq<u8>, guess: Seq<u8>, v: u8, n: int) -> nat
    decreases n,
{
    if n <= 0 {
        0
    } else {
        matched_before(secret, guess, v, n - 1) + if secret[n - 1] == v && guess[n - 1]
            == secret[n - 1] {
            1nat
        } else {
            0nat
        }
    }
}

/// A hint has one mark per letter of the guess.
pub proof fn lemma_hint_len<const N: usize>(secret: Word<N>, guess: Word<N>)
    ensures
        hint_spec(secret@, guess@).len() == N,
{
    Word::lemma_len(guess);
}

/// Guessing the secret itself marks every position Green.
pub proof fn lemma_hint_of_secret_all_green<const N: usize>(secret: Word<N>)
    ensures
        is_all_green(hint_spec(secret@, secret@)),
{
    Word::lemma_len(secret);
}

proof fn lemma_count_split(secret: Seq<u8>, guess: Seq<u8>, v: u8, n: int)
    requires
        0 <= n <= secret.len(),
        secret.len() == guess.len(),
    ensures
        count_before(secret, v, n) == matched_before(secret, guess, v, n) + unmatched_before(
            secret,
            guess,
            v,
            n,
        ),
    decreases n,
{
    if n > 0 {
        lemma_count_split(secret, guess, v, n - 1);
    }
}

proof fn lemma_marked_split(secret: Seq<u8>, guess: Seq<u8>, v: u8, n: int)
    requires
        0 <= n <= secret.len(),
        secret.len() == guess.len(),
    ensures
        ({
            let u = unmatched_before(secret, guess, v, secret.len() as int);
            let m = misplaced_before(secret, guess, v, n);
            marked_before(secret, guess, v, n) == matched_before(secret, guess, v, n) + if m < u {
                m
            } else {
                u
            }
        }),
    decreases n,
{
    if n > 0 {
        lemma_marked_split(secret, guess, v, n - 1);
    }
}

/// For every letter `v`, the positions of the guess holding `v` that are marked
/// Green or Yellow are no more than the copies of `v` in the secret.
pub proof fn lemma_marks_bounded_by_secret<const N: usize>(
    secret: Word<N>,
    guess: Word<N>,
    v: u8,
)
    ensures
        marked_before(secret@, guess@, v, N as int) <= count_before(secret@, v, N as int),
{
    Word::lemma_len(secret);
    Word::lemma_len(guess);
    lemma_marked_split(secret@, guess@, v, N as int);
    lemma_count_split(secret@, guess@, v, N as int);
}

/// The hint for `guess` against the secret word `secret`.
pub fn generate_hint<const N: usize>(secret: Word<N>, guess: Word<N>) -> (r: Hint<N>)
    ensures
        r@ == hint_spec(secret@, guess@),
{
    let s = secret.letters();
    let g = guess.letters();
    let mut marks: [LetterHint; N] = [LetterHint::Black; N];
    let mut i: usize = 0;
    while i < N
        invariant
            i <= N,
            s@ == secret@,
            g@ == guess@,
            secret@.len() == N,
            guess@.len() == N,
            marks@.len() == N,
            forall|j: int| 0 <= j < i ==> #[trigger] marks@[j] == letter_hint_spec(secret@, guess@, j),
        decreases N - i,
    {
        let c = g[i];
        if c == s[i] {
            marks[i] = LetterHint::Green;
        } else {
            let unmatched = count_unmatched(s, g, c, N);
            let misplaced = count_misplaced(s, g, c, i);
            if misplaced < unmatched {
                marks[i] = LetterHint::Yellow;
            } else {
                marks[i] = LetterHint::Black;
            }
        }
        i = i + 1;
    }
    proof {
        assert(marks@ =~= hint_spec(secret@, guess@));
    }
    Hint(marks)
}

/// Counts the positions below `n` where `secret` holds `v` unmatched.
fn count_unmatched<const N: usize>(secret: &[u8; N], guess: &[u8; N], v: u8, n: usize) -> (r: usize)
    requires
        n <= N,
    ensures
        r == unmatched_before(secret@, guess@, v, n as int),
{
    let mut k: usize = 0;
    let mut count: usize = 0;
    while k < n
        invariant
            k <= n <= N,
            secret@.len() == N,
            guess@.len() == N,
            count == unmatched_before(secret@, guess@, v, k as int),
            count <= k,
        decreases n - k,
    {
        if secret[k] == v && guess[k] != secret[k] {
            count = count + 1;
        }
        k = k + 1;
    }
    count
}

/// Counts the positions below `n` where `guess` holds `v` unmatched.
fn count_misplaced<const N: usize>(secret: &[u8; N], guess: &[u8; N], v: u8, n: usize) -> (r: usize)
    requires
        n <= N,
    ensures
        r == misplaced_before(secret@, guess@, v, n as int),
{
    let mut k: usize = 0;
    let mut count: usize = 0;
    while k < n
        invariant
            k <= n <= N,
            secret@.len() == N,
            guess@.len() == N,
            count == misplaced_before(secret@, guess@, v, k as int),
            count <= k,
        decreases n - k,
    {
        if guess[k] == v && guess[k] != secret[k] {
            count = count + 1;
        }
        k = k + 1;
    }
    count
}

} // verus!
