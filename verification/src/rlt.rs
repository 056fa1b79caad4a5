//! The row lookup table: one displacement for every row index.

use vstd::prelude::*;
use vstd::string::*;
use crate::decimal::{
    append_signed_decimal, first_of, is_digit, lemma_first_of, lemma_signed_value, signed_decimal,
    signed_value,
};

verus! {

/// The row lookup table (RLT) is used to find the starting index of a row
/// from the two dimensional array that was packed into a one dimensional array.
#[derive(Debug)]
pub struct Rlt {
    /// The index of the table is the row number, the value the displacement
    /// applied to that row.
    table: Vec<isize>,
    /// Not the number of entries in the table, but the number of words in
    /// the word list used to create the table.
    num_words: usize,
}

/// The entries `from`, `from + 1`, .. of `table` in decimal, separated by a
/// comma and a space.
pub open spec fn joined(table: Seq<isize>, from: int) -> Seq<char>
    decreases table.len() - from,
{
    if from < 0 || from >= table.len() {
        Seq::empty()
    } else if from == table.len() - 1 {
        signed_decimal(table[from] as int)
    } else {
        signed_decimal(table[from] as int) + ", "@ + joined(table, from + 1)
    }
}

/// The entries before `upto`, rendered as `joined` renders them.
pub open spec fn joined_prefix(table: Seq<isize>, upto: int) -> Seq<char> {
    joined(table.take(upto), 0)
}

/// Rendering one entry more appends a separator, unless it is the first,
/// and the entry.
pub proof fn lemma_joined_push(table: Seq<isize>, from: int, value: isize)
    requires
        0 <= from <= table.len(),
    ensures
        joined(table.push(value), from) == if from == table.len() {
            signed_decimal(value as int)
        } else {
            joined(table, from) + ", "@ + signed_decimal(value as int)
        },
    decreases table.len() - from,
{
    let longer = table.push(value);
    if from == table.len() {
    } else if from == table.len() - 1 {
        lemma_joined_push(table, from + 1, value);
        assert(longer[from] == table[from]);
    } else {
        lemma_joined_push(table, from + 1, value);
        assert(longer[from] == table[from]);
        assert(joined(longer, from) =~= joined(table, from) + ", "@ + signed_decimal(
            value as int,
        ));
    }
}

/// The integers of a text in which they stand in decimal, separated by a
/// comma and a space.
pub open spec fn parsed(text: Seq<char>) -> Seq<int>
    decreases text.len(),
{
    if text.len() == 0 {
        Seq::empty()
    } else {
        let end = first_of(text, ',');
        if end < 0 || end + 2 > text.len() {
            seq![signed_value(text)]
        } else {
            seq![signed_value(text.take(end))] + parsed(text.skip(end + 2))
        }
    }
}

/// One of the characters of which the text of a table is made: a digit, a
/// minus sign, a comma or a space.
pub open spec fn is_table_char(c: char) -> bool {
    is_digit(c) || c == '-' || c == ',' || c == ' '
}

/// The text of a table is made of digits, minus signs, commas and spaces.
pub proof fn lemma_joined_chars(table: Seq<isize>, from: int)
    requires
        0 <= from <= table.len(),
    ensures
        forall|i: int| 0 <= i < joined(table, from).len() ==>
            is_table_char(#[trigger] joined(table, from)[i]),
    decreases table.len() - from,
{
    if from < table.len() {
        let number = signed_decimal(table[from] as int);
        lemma_signed_value(table[from] as int);
        if from < table.len() - 1 {
            reveal_strlit(", ");
            lemma_joined_chars(table, from + 1);
            let rest = joined(table, from + 1);
            let text = joined(table, from);
            assert forall|i: int| 0 <= i < text.len() implies is_table_char(#[trigger] text[i]) by {
                if i < number.len() {
                    assert(text[i] == number[i]);
                } else if i < number.len() + 2 {
                    assert(text[i] == ", "@[i - number.len()]);
                } else {
                    assert(text[i] == rest[i - number.len() - 2]);
                }
            }
        }
    }
}

/// The rendered table, parsed, is the table: the entries from `from` on.
pub proof fn lemma_parsed_joined(table: Seq<isize>, from: int)
    requires
        0 <= from <= table.len(),
    ensures
        parsed(joined(table, from))
            == Seq::new((table.len() - from) as nat, |i: int| table[from + i] as int),
    decreases table.len() - from,
{
    let expected = Seq::new((table.len() - from) as nat, |i: int| table[from + i] as int);
    if from == table.len() {
        assert(parsed(joined(table, from)) =~= expected);
    } else {
        let number = signed_decimal(table[from] as int);
        lemma_signed_value(table[from] as int);
        assert forall|i: int| 0 <= i < number.len() implies #[trigger] number[i] != ',' by {
            assert(is_digit(number[i]) || number[i] == '-');
        }
        if from == table.len() - 1 {
            lemma_first_of(number, Seq::empty(), ',');
            assert(number + Seq::<char>::empty() =~= number);
            assert(parsed(number) =~= seq![table[from] as int]);
            assert(parsed(joined(table, from)) =~= expected);
        } else {
            reveal_strlit(", ");
            let rest = joined(table, from + 1);
            let text = joined(table, from);
            lemma_parsed_joined(table, from + 1);
            lemma_first_of(number, ", "@ + rest, ',');
            assert(text =~= number + (", "@ + rest));
            assert(text.take(number.len() as int) =~= number);
            assert(text.skip(number.len() as int + 2) =~= rest);
            assert(parsed(text) =~= seq![table[from] as int] + parsed(rest));
            assert(parsed(text) =~= expected);
        }
    }
}

impl Rlt {
    /// The displacements, by row index.
    pub closed spec fn table(&self) -> Seq<isize> {
        self.table@
    }

    /// The number of words the table was made for.
    pub closed spec fn num_entries(&self) -> usize {
        self.num_words
    }

    /// Creates a row lookup table of `size` zero displacements, made for no
    /// words yet.
    pub fn new(size: usize) -> (rlt: Self)
        ensures
            rlt.table() == Seq::new(size as nat, |i: int| 0isize),
            rlt.num_entries() == 0,
    {
        let table = vec![0isize; size];
        assert(table@ =~= Seq::new(size as nat, |i: int| 0isize));
        Self { table, num_words: 0 }
    }

    /// Gets the value at the specified index, or `None` if the index is
    /// past the end of the table.
    pub fn get(&self, index: usize) -> (value: Option<&isize>)
        ensures
            index < self.table().len() ==> value == Some(&self.table()[index as int]),
            index >= self.table().len() ==> value is None,
    {
        if index < self.table.len() {
            Some(&self.table[index])
        } else {
            None
        }
    }

    /// Sets the value at the specified index.
    pub fn insert(&mut self, index: usize, value: isize)
        requires
            index < old(self).table().len(),
        ensures
            final(self).table() == old(self).table().update(index as int, value),
            final(self).num_entries() == old(self).num_entries(),
    {
        self.table[index] = value;
    }

    /// Gets the number of words in the word list used to create the table.
    pub fn get_num_entries(&self) -> (n: usize)
        ensures
            n == self.num_entries(),
    {
        self.num_words
    }

    /// Sets the number of words in the word list used to create the table.
    pub fn set_num_entries(&mut self, num_words: usize)
        ensures
            final(self).num_entries() == num_words,
            final(self).table() == old(self).table(),
    {
        self.num_words = num_words;
    }

    /// Gets the table as a string: its entries in decimal, separated by a
    /// comma and a space.
    pub fn get_as_text(&self) -> (text: String)
        ensures
            text@ == joined(self.table(), 0),
    {
        let mut text = String::new();
        let mut i: usize = 0;
        while i < self.table.len()
            invariant
                i <= self.table.len(),
                text@ == joined_prefix(self.table@, i as int),
            decreases self.table.len() - i,
        {
            if i > 0 {
                text.append(", ");
            }
            append_signed_decimal(&mut text, self.table[i]);
            proof {
                let done = self.table@.take(i as int);
                lemma_joined_push(done, 0, self.table@[i as int]);
                assert(self.table@.take(i + 1) =~= done.push(self.table@[i as int]));
                assert(text@ =~= joined_prefix(self.table@, i + 1));
            }
            i += 1;
        }
        assert(self.table@.take(i as int) =~= self.table@);
        text
    }
}

} // verus!
