//! The extremal letter count algorithm: the first sub-hash reads the leading
//! letters of a word, the second its trailing letters.

use vstd::prelude::*;
use vstd::string::*;
use crate::decimal::{append_decimal, decimal, is_digit, lemma_decimal_value};
use crate::error::{Error, Kind, KindView};
use crate::hash_algorithm::{is_line, outcome, HashAlgorithm};
use crate::word_list::is_upper;

verus! {

/// The ElcAlgorithm: `elc` letters at either end of a word are read as the
/// digits of a number in base `num_vals`.
#[derive(Debug)]
pub struct ElcAlgorithm {
    elc: usize,
    num_vals: usize,
}

/// The digit for which an upper case letter stands: 0 for `A`, 25 for `Z`.
pub open spec fn letter_index(c: char) -> nat {
    (c as int - 'A' as int) as nat
}

/// The number whose digits in base `num_vals` are the letters of `window`,
/// the most significant digit first.
pub open spec fn radix_value(window: Seq<char>, num_vals: nat) -> nat
    decreases window.len(),
{
    if window.len() == 0 {
        0
    } else {
        radix_value(window.drop_last(), num_vals) * num_vals + letter_index(window.last())
    }
}

/// The number of bytes that a word takes in UTF-8.
pub open spec fn byte_len(word: Seq<char>) -> nat {
    vstd::utf8::encode_utf8(word).len()
}

/// The first `elc` characters of a word, or all of them where it has fewer.
pub open spec fn leading(word: Seq<char>, elc: nat) -> Seq<char> {
    if elc <= word.len() {
        word.take(elc as int)
    } else {
        word
    }
}

/// The last `elc` characters of a word, or all of them where it has fewer,
/// the last character first.
pub open spec fn trailing(word: Seq<char>, elc: nat) -> Seq<char> {
    Seq::new(if elc <= word.len() { elc } else { word.len() }, |i: int| word[word.len() - 1 - i])
}

/// Every character is an ASCII upper case letter.
pub open spec fn all_upper(window: Seq<char>) -> bool {
    forall|i: int| 0 <= i < window.len() ==> is_upper(#[trigger] window[i])
}

/// The message for a word of fewer bytes than the algorithm reads letters.
pub open spec fn too_short_message(word_len: nat, elc: nat) -> Seq<char> {
    "Expected word length ("@ + decimal(word_len) + ") to be greater than or equal to elc ("@
        + decimal(elc) + ")."@
}

/// The message for a word with something else than an upper case letter
/// among the characters that are read.
pub open spec fn unexpected_message(word: Seq<char>, elc: nat) -> Seq<char> {
    "Unexpected character(s) encountered ("@ + word + ") in indices (0.."@ + decimal(elc) + ")."@
}

/// The message for a word whose number is too large for an index.
pub open spec fn overflow_message(word: Seq<char>, elc: nat) -> Seq<char> {
    "Unexpected index overflow encountered ("@ + word + ") in indices (0.."@ + decimal(elc) + ")."@
}

/// The sub-hash of `word` that reads `window`: the number that the letters
/// of the window stand for. It fails for a word of fewer than `elc` bytes,
/// for a window with anything but upper case letters, and for a number
/// that is no index.
pub open spec fn window_hash(word: Seq<char>, window: Seq<char>, elc: nat, num_vals: nat) -> Result<
    usize,
    KindView,
> {
    if byte_len(word) < elc {
        Err(KindView::ElcAlgorithmError(too_short_message(byte_len(word), elc)))
    } else if !all_upper(window) {
        Err(KindView::ElcAlgorithmError(unexpected_message(word, elc)))
    } else if radix_value(window, num_vals) > usize::MAX {
        Err(KindView::ElcAlgorithmError(overflow_message(word, elc)))
    } else {
        Ok(radix_value(window, num_vals) as usize)
    }
}

/// The term of the pseudo code for the digit of one letter of the word.
pub open spec fn letter_term(index: nat, from_end: bool) -> Seq<char> {
    if from_end {
        "ord(word[len-"@ + decimal(index + 1) + "]) - ord('A')"@
    } else {
        "ord(word["@ + decimal(index) + "]) - ord('A')"@
    }
}

/// The pseudo code for the number of a window of `elc` letters, the letters
/// counted from the start of the word or from its end: the number of the
/// window without its last letter, times `num_vals`, plus the digit of that
/// letter.
pub open spec fn window_text(elc: nat, num_vals: nat, from_end: bool) -> Seq<char>
    decreases elc,
{
    if elc == 0 {
        "0"@
    } else if elc == 1 {
        letter_term(0, from_end)
    } else {
        "("@ + window_text((elc - 1) as nat, num_vals, from_end) + ") * "@ + decimal(num_vals) + " + ("@
            + letter_term((elc - 1) as nat, from_end) + ")"@
    }
}

/// A number in decimal holds no line break.
pub proof fn lemma_decimal_is_line(n: nat)
    ensures
        is_line(decimal(n)),
{
    lemma_decimal_value(n);
    assert forall|i: int| 0 <= i < decimal(n).len() implies #[trigger] decimal(n)[i] != '\n' by {
        assert(is_digit(decimal(n)[i]));
    }
}

/// The term for the digit of a letter holds no line break.
pub proof fn lemma_letter_term_is_line(index: nat, from_end: bool)
    ensures
        is_line(letter_term(index, from_end)),
{
    reveal_strlit("ord(word[len-");
    reveal_strlit("ord(word[");
    reveal_strlit("]) - ord('A')");
    lemma_decimal_is_line(index);
    lemma_decimal_is_line(index + 1);
}

/// The pseudo code for the number of a window holds no line break.
pub proof fn lemma_window_text_is_line(elc: nat, num_vals: nat, from_end: bool)
    ensures
        is_line(window_text(elc, num_vals, from_end)),
    decreases elc,
{
    reveal_strlit("0");
    reveal_strlit("(");
    reveal_strlit(") * ");
    reveal_strlit(" + (");
    reveal_strlit(")");
    if elc == 1 {
        lemma_letter_term_is_line(0, from_end);
    } else if elc > 1 {
        lemma_window_text_is_line((elc - 1) as nat, num_vals, from_end);
        lemma_letter_term_is_line((elc - 1) as nat, from_end);
        lemma_decimal_is_line(num_vals);
    }
}

/// With a base of one or more, a number is no smaller than the number of
/// its leading digits.
pub proof fn lemma_radix_value_grows(window: Seq<char>, num_vals: nat, k: int)
    requires
        num_vals >= 1,
        0 <= k <= window.len(),
    ensures
        radix_value(window.take(k), num_vals) <= radix_value(window, num_vals),
    decreases window.len(),
{
    if k == window.len() {
        assert(window.take(k) =~= window);
    } else {
        let shorter = window.drop_last();
        lemma_radix_value_grows(shorter, num_vals, k);
        assert(shorter.take(k) =~= window.take(k));
        assert(radix_value(shorter, num_vals) * num_vals >= radix_value(shorter, num_vals))
            by (nonlinear_arith)
            requires
                num_vals >= 1,
        ;
    }
}

impl ElcAlgorithm {
    /// The number of letters read at either end of a word.
    pub closed spec fn elc(&self) -> usize {
        self.elc
    }

    /// The base in which the letters are digits.
    pub closed spec fn num_vals(&self) -> usize {
        self.num_vals
    }

    /// Creates a new ElcAlgorithm.
    #[must_use]
    pub fn new(elc: usize, num_vals: usize) -> (algorithm: Self)
        ensures
            algorithm.elc() == elc,
            algorithm.num_vals() == num_vals,
    {
        Self { elc, num_vals }
    }

    /// The digit for which an ASCII upper case letter stands.
    pub fn char_to_index(c: char) -> (index: usize)
        requires
            is_upper(c),
        ensures
            index == letter_index(c),
    {
        (c as usize) - ('A' as usize)
    }

    /// Appends the digit `x` to the number `acc`.
    pub fn step(&self, acc: usize, x: usize) -> (next: usize)
        requires
            acc * self.num_vals() + x <= usize::MAX,
        ensures
            next == acc * self.num_vals() + x,
    {
        assert(acc * self.num_vals <= usize::MAX) by (nonlinear_arith)
            requires
                acc * self.num_vals + x <= usize::MAX,
        ;
        (acc * self.num_vals) + x
    }

    // Whether the digit `x` can be appended to the number `acc`.
    fn can_step(&self, acc: usize, x: usize) -> (b: bool)
        ensures
            b == (acc * self.num_vals() + x <= usize::MAX),
    {
        match acc.checked_mul(self.num_vals) {
            Some(product) => product.checked_add(x).is_some(),
            None => false,
        }
    }

    // The sub-hash that reads the letters at the start of the word, or
    // those at its end, the last letter first.
    fn hash_window(&self, word: &str, from_end: bool) -> (r: Result<usize, Error>)
        ensures
            outcome(r) == window_hash(
                word@,
                if from_end {
                    trailing(word@, self.elc() as nat)
                } else {
                    leading(word@, self.elc() as nat)
                },
                self.elc() as nat,
                self.num_vals() as nat,
            ),
    {
        let ghost window = if from_end {
            trailing(word@, self.elc as nat)
        } else {
            leading(word@, self.elc as nat)
        };
        let word_len = word.as_bytes().len();
        if word_len < self.elc {
            let mut message = String::from_str("Expected word length (");
            append_decimal(&mut message, word_len);
            message.append(") to be greater than or equal to elc (");
            append_decimal(&mut message, self.elc);
            message.append(").");
            assert(message@ =~= too_short_message(byte_len(word@), self.elc as nat));
            return Err(Error::new(Kind::ElcAlgorithmError(message)));
        }
        let count = word.unicode_len();
        let width = if self.elc <= count {
            self.elc
        } else {
            count
        };
        let mut i: usize = 0;
        while i < width
            invariant
                i <= width,
                width == window.len(),
                count == word@.len(),
                width <= count,
                byte_len(word@) >= self.elc,
                window == if from_end {
                    trailing(word@, self.elc as nat)
                } else {
                    leading(word@, self.elc as nat)
                },
                forall|j: int| 0 <= j < width ==>
                    #[trigger] window[j] == word@[if from_end { count - 1 - j } else { j }],
                forall|j: int| 0 <= j < i ==> is_upper(#[trigger] window[j]),
            decreases width - i,
        {
            let c = word.get_char(if from_end { count - 1 - i } else { i });
            if !(c >= 'A' && c <= 'Z') {
                assert(!is_upper(window[i as int]));
                let mut message = String::from_str("Unexpected character(s) encountered (");
                message.append(word);
                message.append(") in indices (0..");
                append_decimal(&mut message, self.elc);
                message.append(").");
                assert(message@ =~= unexpected_message(word@, self.elc as nat));
                return Err(Error::new(Kind::ElcAlgorithmError(message)));
            }
            i += 1;
        }
        let mut acc: usize = 0;
        let mut i: usize = 0;
        while i < width
            invariant
                i <= width,
                width == window.len(),
                count == word@.len(),
                width <= count,
                byte_len(word@) >= self.elc,
                window == if from_end {
                    trailing(word@, self.elc as nat)
                } else {
                    leading(word@, self.elc as nat)
                },
                forall|j: int| 0 <= j < width ==>
                    #[trigger] window[j] == word@[if from_end { count - 1 - j } else { j }],
                all_upper(window),
                acc == radix_value(window.take(i as int), self.num_vals as nat),
            decreases width - i,
        {
            let c = word.get_char(if from_end { count - 1 - i } else { i });
            assert(c == window[i as int]);
            assert(is_upper(window[i as int]));
            let x = ElcAlgorithm::char_to_index(c);
            proof {
                let longer = window.take(i + 1);
                assert(longer.drop_last() =~= window.take(i as int));
                assert(longer.last() == window[i as int]);
            }
            if !self.can_step(acc, x) {
                proof {
                    assert(self.num_vals >= 1) by {
                        if self.num_vals == 0 {
                            assert(acc * self.num_vals == 0) by (nonlinear_arith)
                                requires
                                    self.num_vals == 0,
                            ;
                        }
                    }
                    lemma_radix_value_grows(window, self.num_vals as nat, i + 1);
                }
                let mut message = String::from_str("Unexpected index overflow encountered (");
                message.append(word);
                message.append(") in indices (0..");
                append_decimal(&mut message, self.elc);
                message.append(").");
                assert(message@ =~= overflow_message(word@, self.elc as nat));
                return Err(Error::new(Kind::ElcAlgorithmError(message)));
            }
            acc = self.step(acc, x);
            i += 1;
        }
        assert(window.take(i as int) =~= window);
        Ok(acc)
    }

    // The pseudo code for the number of the window.
    fn window_as_text(&self, from_end: bool) -> (text: String)
        ensures
            text@ == window_text(self.elc() as nat, self.num_vals() as nat, from_end),
            is_line(text@),
    {
        proof {
            lemma_window_text_is_line(self.elc as nat, self.num_vals as nat, from_end);
        }
        if self.elc == 0 {
            return String::from_str("0");
        }
        let mut text = ElcAlgorithm::letter_as_text(0, from_end);
        let mut k: usize = 1;
        while k < self.elc
            invariant
                1 <= k <= self.elc,
                text@ == window_text(k as nat, self.num_vals as nat, from_end),
            decreases self.elc - k,
        {
            let mut longer = String::from_str("(");
            longer.append(text.as_str());
            longer.append(") * ");
            append_decimal(&mut longer, self.num_vals);
            longer.append(" + (");
            longer.append(ElcAlgorithm::letter_as_text(k, from_end).as_str());
            longer.append(")");
            assert(longer@ =~= window_text((k + 1) as nat, self.num_vals as nat, from_end));
            text = longer;
            k += 1;
        }
        text
    }

    // The term of the pseudo code for the digit of one letter.
    fn letter_as_text(index: usize, from_end: bool) -> (text: String)
        requires
            index < usize::MAX,
        ensures
            text@ == letter_term(index as nat, from_end),
    {
        let mut text = String::from_str(if from_end { "ord(word[len-" } else { "ord(word[" });
        append_decimal(&mut text, if from_end { index + 1 } else { index });
        text.append("]) - ord('A')");
        assert(text@ =~= letter_term(index as nat, from_end));
        text
    }
}

impl HashAlgorithm for ElcAlgorithm {
    open spec fn spec_h1(&self, word: Seq<char>) -> Result<usize, KindView> {
        window_hash(word, leading(word, self.elc() as nat), self.elc() as nat, self.num_vals() as nat)
    }

    open spec fn spec_h2(&self, word: Seq<char>) -> Result<usize, KindView> {
        window_hash(word, trailing(word, self.elc() as nat), self.elc() as nat, self.num_vals() as nat)
    }

    open spec fn spec_h1_text(&self) -> Seq<char> {
        window_text(self.elc() as nat, self.num_vals() as nat, false)
    }

    open spec fn spec_h2_text(&self) -> Seq<char> {
        window_text(self.elc() as nat, self.num_vals() as nat, true)
    }

    /// The number whose digits are the first letters of the word.
    fn h1(&self, word: &str) -> (r: Result<usize, Error>) {
        self.hash_window(word, false)
    }

    /// The number whose digits are the last letters of the word, the last
    /// letter being the most significant digit.
    fn h2(&self, word: &str) -> (r: Result<usize, Error>) {
        self.hash_window(word, true)
    }

    fn h1_as_text(&self) -> (text: String) {
        self.window_as_text(false)
    }

    fn h2_as_text(&self) -> (text: String) {
        self.window_as_text(true)
    }
}

impl Default for ElcAlgorithm {
    /// One letter at either end, in base 26.
    fn default() -> (algorithm: Self)
        ensures
            algorithm.elc() == 1,
            algorithm.num_vals() == 26,
    {
        Self { elc: 1, num_vals: 26 }
    }
}

} // verus!
