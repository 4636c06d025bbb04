use vstd::prelude::*;
use vstd::string::StrSliceExecFns;

verus! {

/// Why a word or a hint could not be read from text: a wrong length or a
/// character outside the accepted alphabet.
#[derive(Clone, Copy, Debug, PartialEq, Eq, Structural)]
pub enum ParseError {
    WrongLength,
    InvalidCharacter,
}

/// Whether `c` is an ASCII letter, upper or lower case.
pub open spec fn is_ascii_letter(c: char) -> bool {
    let v = c as u32;
    (65 <= v && v <= 90) || (97 <= v && v <= 122)
}

/// The lower-case ASCII byte of a letter.
pub open spec fn lower_byte(c: char) -> u8 {
    let v = c as u32;
    if 65 <= v && v <= 90 {
        (v + 32) as u8
    } else {
        v as u8
    }
}

/// Whether `b` is a lower-case ASCII letter.
pub open spec fn is_lower_letter(b: u8) -> bool {
    97 <= b && b <= 122
}

/// Whether `s` spells a word of `n` letters.
pub open spec fn is_word_text(s: Seq<char>, n: nat) -> bool {
    &&& s.len() == n
    &&& forall|i: int| 0 <= i < s.len() ==> is_ascii_letter(#[trigger] s[i])
}

/// The letters of the word spelled by `s`, normalized to lower case.
pub open spec fn word_of_text(s: Seq<char>) -> Seq<u8> {
    s.map_values(|c: char| lower_byte(c))
}

/// A word of `N` lower-case ASCII letters.
#[derive(Clone, Copy, Debug, Hash, Eq, PartialOrd, Ord)]
pub struct Word<const N: usize>([u8; N]);

impl<const N: usize> View for Word<N> {
    type V = Seq<u8>;

    closed spec fn view(&self) -> Seq<u8> {
        self.0@
    }
}

impl<const N: usize> PartialEq for Word<N> {
    fn eq(&self, other: &Word<N>) -> (r: bool) {
        let mut i: usize = 0;
        while i < N
            invariant
                i <= N,
                self.0@.len() == N,
                other.0@.len() == N,
                forall|j: int| 0 <= j < i ==> self.0@[j] == other.0@[j],
            decreases N - i,
        {
            if self.0[i] != other.0[i] {
                return false;
            }
            i = i + 1;
        }
        assert(self.0@ =~= other.0@);
        true
    }
}

impl<const N: usize> vstd::std_specs::cmp::PartialEqSpecImpl for Word<N> {
    open spec fn obeys_eq_spec() -> bool {
        true
    }

    open spec fn eq_spec(&self, other: &Word<N>) -> bool {
        self@ == other@
    }
}

impl<const N: usize> Word<N> {
    #[verifier::type_invariant]
    spec fn well_formed(self) -> bool {
        forall|i: int| 0 <= i < N ==> is_lower_letter(#[trigger] self.0@[i])
    }

    /// Every word has `N` letters.
    pub proof fn lemma_len(w: Word<N>)
        ensures
            #[trigger] w@.len() == N,
    {
    }

    /// Two words are equal exactly when their letters are.
    pub proof fn lemma_view_eq(a: Word<N>, b: Word<N>)
        ensures
            a@ == b@ <==> a == b,
    {
        if a@ == b@ {
            assert(a.0 =~= b.0);
        }
    }

    /// Reads a word of exactly `N` ASCII letters, in any case.
    pub fn parse(s: &str) -> (r: Result<Word<N>, ParseError>)
        ensures
            r is Ok <==> is_word_text(s@, N as nat),
            r matches Ok(w) ==> w@ == word_of_text(s@),
            r == Err::<Word<N>, _>(ParseError::WrongLength) <==> s@.len() != N,
    {
        let len = s.unicode_len();
        if len != N {
            return Err(ParseError::WrongLength);
        }
        let mut letters: [u8; N] = [0u8; N];
        let mut i: usize = 0;
        while i < N
            invariant
                i <= N,
                s@.len() == N,
                letters@.len() == N,
                forall|j: int| 0 <= j < i ==> is_ascii_letter(#[trigger] s@[j]),
                forall|j: int| 0 <= j < i ==> #[trigger] letters@[j] == lower_byte(s@[j]),
            decreases N - i,
        {
            let c = s.get_char(i);
            let v = c as u32;
            if 65 <= v && v <= 90 {
                letters[i] = (v + 32) as u8;
            } else if 97 <= v && v <= 122 {
                letters[i] = v as u8;
            } else {
                return Err(ParseError::InvalidCharacter);
            }
            i = i + 1;
        }
        assert(letters@ =~= word_of_text(s@));
        Ok(Word(letters))
    }

    /// The letters of the word.
    pub fn letters(&self) -> (r: &[u8; N])
        ensures
            r@ == self@,
            r@.len() == N,
            forall|i: int| 0 <= i < N ==> is_lower_letter(#[trigger] r@[i]),
    {
        proof {
            use_type_invariant(self);
        }
        &self.0
    }
}

impl<const N: usize> core::str::FromStr for Word<N> {
    type Err = ParseError;

    fn from_str(s: &str) -> Result<Word<N>, ParseError> {
        Word::parse(s)
    }
}

/// The words spelled by those of `lines` that spell a word of `N` letters, in order.
pub open spec fn words_of_lines(lines: Seq<Seq<char>>, n: nat) -> Seq<Seq<u8>>
    decreases lines.len(),
{
    if lines.len() == 0 {
        Seq::empty()
    } else {
        let rest = words_of_lines(lines.drop_last(), n);
        if is_word_text(lines.last(), n) {
            rest.push(word_of_text(lines.last()))
        } else {
            rest
        }
    }
}

/// Reads a word list: keeps the lines that spell a word of `N` letters, in
/// order, and drops the others.
pub fn process_words<const N: usize>(lines: &[String]) -> (r: Vec<Word<N>>)
    ensures
        r@.map_values(|w: Word<N>| w@) == words_of_lines(
            lines@.map_values(|s: String| s@),
            N as nat,
        ),
{
    let ghost texts = lines@.map_values(|s: String| s@);
    let mut out: Vec<Word<N>> = Vec::new();
    let mut i: usize = 0;
    while i < lines.len()
        invariant
            i <= lines@.len(),
            texts == lines@.map_values(|s: String| s@),
            out@.map_values(|w: Word<N>| w@) == words_of_lines(texts.take(i as int), N as nat),
        decreases lines@.len() - i,
    {
        proof {
            assert(texts.take(i + 1).drop_last() =~= texts.take(i as int));
            assert(texts.take(i + 1).last() == lines@[i as int]@);
        }
        let ghost before = out@;
        match Word::<N>::parse(lines[i].as_str()) {
            Ok(w) => {
                out.push(w);
                proof {
                    assert(out@.map_values(|w: Word<N>| w@) =~= before.map_values(
                        |w: Word<N>| w@,
                    ).push(w@));
                }
            },
            Err(_) => {},
        }
        i = i + 1;
    }
    proof {
        assert(texts.take(i as int) =~= texts);
    }
    out
}

} // verus!
