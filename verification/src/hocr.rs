//! Numbering of the elements of an hOCR text layer: pages, paragraphs,
//! lines and words get ids in the order in which they are generated.

use vstd::prelude::*;
use crate::text::{decimal_chars, decimal_of, digit_char, push_all, string_from};

verus! {

/// hOCR document generator: the running counters of pages, paragraphs,
/// lines and words.
pub struct HocrGenerator {
    page_counter: u32,
    paragraph_counter: u32,
    line_counter: u32,
    word_counter: u32,
}

/// `prefix` followed by the decimal digits of `n`.
pub open spec fn numbered(prefix: Seq<char>, n: nat) -> Seq<char> {
    prefix + decimal_chars(n)
}

fn numbered_string(prefix: &[char], n: u64) -> (r: String)
    ensures
        r@ == numbered(prefix@, n as nat),
{
    let mut v: Vec<char> = Vec::new();
    push_all(&mut v, prefix);
    let d = decimal_of(n);
    push_all(&mut v, d.as_slice());
    string_from(v.as_slice())
}

impl HocrGenerator {
    pub closed spec fn pages(&self) -> nat {
        self.page_counter as nat
    }

    pub closed spec fn paragraphs(&self) -> nat {
        self.paragraph_counter as nat
    }

    pub closed spec fn lines(&self) -> nat {
        self.line_counter as nat
    }

    pub closed spec fn words(&self) -> nat {
        self.word_counter as nat
    }

    pub fn new() -> (r: Self)
        ensures
            r.pages() == 0 && r.paragraphs() == 0 && r.lines() == 0 && r.words() == 0,
    {
        HocrGenerator { page_counter: 0, paragraph_counter: 0, line_counter: 0, word_counter: 0 }
    }

    /// Start a page: its number, counting from 1.
    pub fn begin_page(&mut self) -> (n: u32)
        requires
            old(self).pages() < u32::MAX,
        ensures
            n == old(self).pages() + 1,
            final(self).pages() == n,
            final(self).paragraphs() == old(self).paragraphs(),
            final(self).lines() == old(self).lines(),
            final(self).words() == old(self).words(),
    {
        self.page_counter = self.page_counter + 1;
        self.page_counter
    }

    /// Id of the next paragraph: `para_N`, counting from 1.
    pub fn next_paragraph_id(&mut self) -> (id: String)
        requires
            old(self).paragraphs() < u32::MAX,
        ensures
            final(self).paragraphs() == old(self).paragraphs() + 1,
            id@ == numbered("para_"@, final(self).paragraphs()),
            final(self).pages() == old(self).pages(),
            final(self).lines() == old(self).lines(),
            final(self).words() == old(self).words(),
    {
        self.paragraph_counter = self.paragraph_counter + 1;
        let prefix = ['p', 'a', 'r', 'a', '_'];
        proof {
            reveal_strlit("para_");
            assert(prefix@ =~= "para_"@);
        }
        numbered_string(&prefix, self.paragraph_counter as u64)
    }

    /// Id of the line `line_index` of paragraph `para_index` (both counting
    /// from 0): `line_P_L`. The line counter goes up by one.
    pub fn next_line_id(&mut self, para_index: u64, line_index: u64) -> (id: String)
        requires
            old(self).lines() < u32::MAX,
        ensures
            final(self).lines() == old(self).lines() + 1,
            id@ == numbered("line_"@, para_index as nat) + seq!['_'] + decimal_chars(line_index as nat),
            final(self).pages() == old(self).pages(),
            final(self).paragraphs() == old(self).paragraphs(),
            final(self).words() == old(self).words(),
    {
        self.line_counter = self.line_counter + 1;
        let prefix = ['l', 'i', 'n', 'e', '_'];
        proof {
            reveal_strlit("line_");
            assert(prefix@ =~= "line_"@);
        }
        let mut v: Vec<char> = Vec::new();
        push_all(&mut v, &prefix);
        push_all(&mut v, decimal_of(para_index).as_slice());
        v.push('_');
        push_all(&mut v, decimal_of(line_index).as_slice());
        string_from(v.as_slice())
    }

    /// Id of the next word: `word_N`, counting from 1.
    pub fn next_word_id(&mut self) -> (id: String)
        requires
            old(self).words() < u32::MAX,
        ensures
            final(self).words() == old(self).words() + 1,
            id@ == numbered("word_"@, final(self).words()),
            final(self).pages() == old(self).pages(),
            final(self).paragraphs() == old(self).paragraphs(),
            final(self).lines() == old(self).lines(),
    {
        self.word_counter = self.word_counter + 1;
        let prefix = ['w', 'o', 'r', 'd', '_'];
        proof {
            reveal_strlit("word_");
            assert(prefix@ =~= "word_"@);
        }
        numbered_string(&prefix, self.word_counter as u64)
    }
}

impl Default for HocrGenerator {
    fn default() -> (r: Self)
        ensures
            r.pages() == 0 && r.paragraphs() == 0 && r.lines() == 0 && r.words() == 0,
    {
        Self::new()
    }
}

/// Create an hOCR generator
pub fn create_hocr_generator() -> (r: HocrGenerator)
    ensures
        r.pages() == 0 && r.paragraphs() == 0 && r.lines() == 0 && r.words() == 0,
{
    HocrGenerator::new()
}


proof fn lemma_digit_char_injective(a: nat, b: nat)
    requires
        a < 10,
        b < 10,
        digit_char(a) == digit_char(b),
    ensures
        a == b,
{
    assert(digit_char(a) as u32 == 48 + a);
    assert(digit_char(b) as u32 == 48 + b);
}


proof fn lemma_decimal_len(n: nat)
    ensures
        decimal_chars(n).len() >= 1,
        n >= 10 ==> decimal_chars(n).len() >= 2,
    decreases n,
{
    if n >= 10 {
        lemma_decimal_len(n / 10);
    }
}

proof fn lemma_decimal_injective(a: nat, b: nat)
    requires
        decimal_chars(a) == decimal_chars(b),
    ensures
        a == b,
    decreases a,
{
    lemma_decimal_len(a);
    lemma_decimal_len(b);
    if a < 10 && b < 10 {
        assert(decimal_chars(a)[0] == digit_char(a));
        assert(decimal_chars(b)[0] == digit_char(b));
        lemma_digit_char_injective(a, b);
    } else if a >= 10 && b >= 10 {
        let da = decimal_chars(a);
        assert(da.last() == digit_char(a % 10));
        assert(decimal_chars(b).last() == digit_char(b % 10));
        lemma_digit_char_injective(a % 10, b % 10);
        assert(da.drop_last() == decimal_chars(a / 10));
        assert(decimal_chars(b).drop_last() == decimal_chars(b / 10));
        lemma_decimal_injective(a / 10, b / 10);
    } else if a < 10 {
        lemma_decimal_len(b);
        assert(decimal_chars(a).len() == 1);
    } else {
        assert(decimal_chars(b).len() == 1);
    }
}

/// Ids of one kind are told apart by their numbers: `para_N`, `word_N`
/// (or any other prefix) for two different numbers are different, so each
/// call of `next_paragraph_id` or `next_word_id` hands out a new id.
pub proof fn numbered_ids_are_distinct(prefix: Seq<char>, a: nat, b: nat)
    requires
        a != b,
    ensures
        numbered(prefix, a) != numbered(prefix, b),
{
    if numbered(prefix, a) == numbered(prefix, b) {
        assert(numbered(prefix, a).skip(prefix.len() as int) =~= decimal_chars(a));
        assert(numbered(prefix, b).skip(prefix.len() as int) =~= decimal_chars(b));
        lemma_decimal_injective(a, b);
    }
}

} // verus!
