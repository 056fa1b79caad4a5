//! The ordered list of words for which a hash is built.

use vstd::prelude::*;
use vstd::hash_set::StringHashSet;
use vstd::string::*;
use crate::decimal::{append_decimal, decimal};
use crate::error::{Error, Kind, KindView};

verus! {

/// A list of words that need to be accessed by a hash function.
#[derive(Debug)]
pub struct WordList {
    /// The list of words.
    pub list: Vec<String>,
}

impl View for WordList {
    type V = Seq<Seq<char>>;

    /// The words, each as its characters, in the order in which they were
    /// pushed.
    open spec fn view(&self) -> Seq<Seq<char>> {
        Seq::new(self.list@.len(), |i: int| self.list@[i]@)
    }
}

/// An ASCII upper case letter.
pub open spec fn is_upper(c: char) -> bool {
    'A' <= c <= 'Z'
}

/// A word: one ASCII upper case letter or more, and nothing else.
pub open spec fn is_word(word: Seq<char>) -> bool {
    &&& word.len() > 0
    &&& forall|i: int| 0 <= i < word.len() ==> is_upper(#[trigger] word[i])
}

/// Whether the word at position `i` stands in the list before that
/// position too.
pub open spec fn repeats(words: Seq<Seq<char>>, i: int) -> bool {
    exists|j: int| 0 <= j < i && #[trigger] words[j] == words[i]
}

/// The message for something that is no word; `position` counts from one.
pub open spec fn not_a_word_message(position: nat) -> Seq<char> {
    "Non ASCII upper case alphabetic word detected at "@ + decimal(position) + "."@
}

/// The message for a word that stands in the list a second time;
/// `position` counts from one.
pub open spec fn duplicate_message(word: Seq<char>, position: nat) -> Seq<char> {
    "Duplicate word detected: "@ + word + " at position "@ + decimal(position)
}

/// The error of a list without words.
pub open spec fn empty_list_error() -> KindView {
    KindView::WordListError("Empty word list."@)
}

/// What is wrong at position `i` of the list, if anything: the entry is no
/// word, or it is a word that stands before that position too.
pub open spec fn fault(words: Seq<Seq<char>>, i: int) -> Option<KindView> {
    if !is_word(words[i]) {
        Some(KindView::WordListError(not_a_word_message((i + 1) as nat)))
    } else if repeats(words, i) {
        Some(KindView::WordListError(duplicate_message(words[i], (i + 1) as nat)))
    } else {
        None
    }
}

/// The list is fit for hashing: it is not empty, and its entries are words
/// that differ from each other.
pub open spec fn valid(words: Seq<Seq<char>>) -> bool {
    &&& words.len() > 0
    &&& forall|i: int| 0 <= i < words.len() ==> (#[trigger] fault(words, i)) is None
}

/// Position `i` is the first at which something is wrong.
pub open spec fn first_fault(words: Seq<Seq<char>>, i: int) -> bool {
    &&& 0 <= i < words.len()
    &&& fault(words, i) is Some
    &&& forall|j: int| 0 <= j < i ==> (#[trigger] fault(words, j)) is None
}

/// The first position at which something is wrong, in a list that has one.
pub open spec fn first_fault_index(words: Seq<Seq<char>>) -> int {
    choose|i: int| first_fault(words, i)
}

/// The error for a list that is not valid: that of the empty list, or else
/// what is wrong at the first position at which something is.
pub open spec fn validation_error(words: Seq<Seq<char>>) -> KindView {
    if words.len() == 0 {
        empty_list_error()
    } else {
        fault(words, first_fault_index(words))->Some_0
    }
}

// Whether `word` is one ASCII upper case letter or more, and nothing else.
fn is_upper_word(word: &str) -> (b: bool)
    ensures
        b == is_word(word@),
{
    if !word.is_ascii() {
        proof {
            let i = choose|i: int| 0 <= i < word@.len() && !('\0' <= #[trigger] word@[i]
                <= '\u{7f}');
            assert(!is_upper(word@[i]));
        }
        return false;
    }
    proof {
        vstd::utf8::is_ascii_chars_encode_utf8(word@);
    }
    let bytes = word.as_bytes();
    if bytes.len() == 0 {
        return false;
    }
    let mut i: usize = 0;
    while i < bytes.len()
        invariant
            i <= bytes@.len(),
            bytes@.len() == word@.len(),
            forall|j: int| 0 <= j < word@.len() ==> (#[trigger] word@[j]) as u8 == bytes@[j],
            forall|j: int| 0 <= j < word@.len() ==> '\0' <= #[trigger] word@[j] <= '\u{7f}',
            forall|j: int| 0 <= j < i ==> is_upper(#[trigger] word@[j]),
        decreases bytes.len() - i,
    {
        let b = bytes[i];
        if b < 65 || b > 90 {
            assert(!is_upper(word@[i as int]));
            return false;
        }
        assert(is_upper(word@[i as int]));
        i += 1;
    }
    true
}

impl WordList {
    /// Creates a new empty word list.
    #[must_use]
    pub fn new() -> (wl: Self)
        ensures
            wl@ == Seq::<Seq<char>>::empty(),
    {
        let wl = WordList { list: Vec::new() };
        assert(wl@ =~= Seq::<Seq<char>>::empty());
        wl
    }

    /// Tests whether all the words in the list are valid for the assumptions
    /// and limitations of the hashing implementation.
    /// * The list is not empty.
    /// * All words are ASCII uppercase alphabetic.
    /// * All words are unique.
    ///
    /// # Errors
    /// Will return `Err` for an empty list, and else for the first position
    /// at which something is no word, or is a word that stands in the list
    /// before.
    pub fn is_valid(&self) -> (r: Result<(), Error>)
        ensures
            r is Ok <==> valid(self@),
            r is Err ==> r->Err_0@ == validation_error(self@),
    {
        // Check for empty list.
        if self.list.len() == 0 {
            return Err(Error::new(Kind::WordListError(String::from_str("Empty word list."))));
        }
        let ghost words = self@;
        let mut duplicate_checker = StringHashSet::new();
        let mut i: usize = 0;
        while i < self.list.len()
            invariant
                i <= self.list@.len(),
                words == self@,
                words.len() > 0,
                forall|j: int| 0 <= j < i ==> (#[trigger] fault(words, j)) is None,
                forall|w: Seq<char>|
                    duplicate_checker@.contains(w) <==>
                        exists|j: int| 0 <= j < i && #[trigger] words[j] == w,
            decreases self.list.len() - i,
        {
            let word = &self.list[i];
            let ghost checked = duplicate_checker@;
            assert(word@ == words[i as int]);
            // Check for non ASCII upper case alphabetic words.
            if !is_upper_word(word.as_str()) {
                let mut message = String::from_str("Non ASCII upper case alphabetic word detected at ");
                append_decimal(&mut message, i + 1);
                message.append(".");
                proof {
                    assert(message@ =~= not_a_word_message((i + 1) as nat));
                    lemma_first_fault_unique(words, i as int);
                }
                return Err(Error::new(Kind::WordListError(message)));
            }
            // Check for duplicate words.
            if !duplicate_checker.insert(word.clone()) {
                let mut message = String::from_str("Duplicate word detected: ");
                message.append(word.as_str());
                message.append(" at position ");
                append_decimal(&mut message, i + 1);
                proof {
                    assert(checked.contains(words[i as int]));
                    assert(repeats(words, i as int));
                    assert(message@ =~= duplicate_message(words[i as int], (i + 1) as nat));
                    lemma_first_fault_unique(words, i as int);
                }
                return Err(Error::new(Kind::WordListError(message)));
            }
            proof {
                assert forall|w: Seq<char>| duplicate_checker@.contains(w) <==> exists|j: int|
                    0 <= j < i + 1 && #[trigger] words[j] == w by {
                    if exists|j: int| 0 <= j < i + 1 && #[trigger] words[j] == w {
                        let j = choose|j: int| 0 <= j < i + 1 && #[trigger] words[j] == w;
                        if j < i {
                            assert(checked.contains(w));
                        }
                    }
                    if checked.contains(w) {
                        let j = choose|j: int| 0 <= j < i && #[trigger] words[j] == w;
                        assert(words[j] == w);
                    }
                    if w == words[i as int] {
                        assert(words[i as int] == w);
                    }
                }
            }
            i += 1;
        }
        Ok(())
    }

    /// Returns the number of words in the list.
    #[must_use]
    pub fn len(&self) -> (n: usize)
        ensures
            n == self@.len(),
    {
        self.list.len()
    }

    /// Returns true if the list is empty.
    #[must_use]
    pub fn is_empty(&self) -> (b: bool)
        ensures
            b == (self@.len() == 0),
    {
        self.list.len() == 0
    }

    /// Adds a word to the end of the list.
    pub fn push(&mut self, word: &str)
        ensures
            final(self)@ == old(self)@.push(word@),
    {
        self.list.push(String::from_str(word));
        assert(final(self)@ =~= old(self)@.push(word@));
    }
}

impl From<Vec<String>> for WordList {
    /// Creates a word list of the given words, in their order.
    fn from(words: Vec<String>) -> (wl: Self) {
        WordList { list: words }
    }
}

impl vstd::std_specs::convert::FromSpecImpl<Vec<String>> for WordList {
    open spec fn obeys_from_spec() -> bool {
        true
    }

    open spec fn from_spec(words: Vec<String>) -> Self {
        WordList { list: words }
    }
}

impl Default for WordList {
    fn default() -> (wl: Self)
        ensures
            wl@ == Seq::<Seq<char>>::empty(),
    {
        WordList::new()
    }
}

/// Only one position can be the first at which something is wrong.
pub proof fn lemma_first_fault_unique(words: Seq<Seq<char>>, i: int)
    requires
        first_fault(words, i),
    ensures
        !valid(words),
        forall|k: int| first_fault(words, k) ==> k == i,
        first_fault_index(words) == i,
{
    assert forall|k: int| first_fault(words, k) implies k == i by {
        if k < i {
            assert(fault(words, k) is None);
        } else if i < k {
            assert(fault(words, i) is None);
        }
    }
}

} // verus!
