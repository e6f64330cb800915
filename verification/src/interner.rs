//! Word interning: a two-way mapping between words and small dense handles,
//! so that a word is a cheap key wherever it is needed.

use vstd::prelude::*;
use vstd::string::StringExecFns;

use crate::lex::{compare_keys, KeyOrder};
use crate::str_codec::lemma_text_of_bytes;

verus! {

/// The most words that one interner holds: a handle is a 16-bit number.
pub const MAX_INTERNED: usize = 65536;

/// The handle of an interned word.
#[derive(Clone, Copy, Debug, PartialEq, Eq, Structural)]
pub struct Interned {
    pub index: u16,
}

/// The words of one indexing run or of one query, each under its handle.
pub struct Interner {
    words: Vec<String>,
}

/// The texts of a vector of words.
pub open spec fn words_view(words: Seq<String>) -> Seq<Seq<char>> {
    words.map_values(|word: String| word@)
}

/// No word stands twice.
pub open spec fn distinct(words: Seq<Seq<char>>) -> bool {
    forall|i: int, j: int| 0 <= i < j < words.len() ==> words[i] != words[j]
}

impl View for Interner {
    type V = Seq<Seq<char>>;

    closed spec fn view(&self) -> Seq<Seq<char>> {
        words_view(self.words@)
    }
}

impl Interner {
    /// The invariant: every word has one handle, and there are no more words
    /// than handles.
    pub open spec fn wf(&self) -> bool {
        self@.len() <= MAX_INTERNED && distinct(self@)
    }

    /// Whether `handle` is the handle of a word of this interner.
    pub open spec fn holds(&self, handle: Interned) -> bool {
        handle.index < self@.len()
    }

    /// An interner without words.
    pub fn new() -> (interner: Interner)
        ensures
            interner.wf(),
            interner@.len() == 0,
    {
        Interner { words: Vec::new() }
    }

    /// The number of words.
    pub fn len(&self) -> (len: usize)
        ensures
            len == self@.len(),
    {
        self.words.len()
    }

    /// The handle of `word`, if the word is interned.
    pub fn find(&self, word: &str) -> (handle: Option<Interned>)
        requires
            self.wf(),
        ensures
            handle matches Some(h) ==> self.holds(h) && self@[h.index as int] == word@,
            handle is None ==> !self@.contains(word@),
    {
        let mut i: usize = 0;
        while i < self.words.len()
            invariant
                i <= self@.len(),
                self@.len() <= MAX_INTERNED,
                forall|k: int| 0 <= k < i ==> self@[k] != word@,
            decreases self@.len() - i,
        {
            let candidate = self.words[i].as_str();
            assert(candidate@ == self@[i as int]);
            if compare_keys(candidate.as_bytes(), word.as_bytes()) == KeyOrder::Same {
                proof {
                    lemma_text_of_bytes(candidate, word);
                }
                return Some(Interned { index: i as u16 });
            }
            i += 1;
        }
        None
    }

    /// Interns `word` and gives its handle: the handle it has if it is
    /// interned already, a new one if not. Nothing when every handle is
    /// taken.
    pub fn insert(&mut self, word: &str) -> (handle: Option<Interned>)
        requires
            old(self).wf(),
        ensures
            final(self).wf(),
            handle is None <==> !old(self)@.contains(word@) && old(self)@.len() == MAX_INTERNED,
            handle is None ==> final(self)@ == old(self)@,
            handle matches Some(h) ==> final(self).holds(h) && final(self)@[h.index as int]
                == word@,
            handle is Some && old(self)@.contains(word@) ==> final(self)@ == old(self)@,
            handle is Some && !old(self)@.contains(word@) ==> final(self)@ == old(self)@.push(
                word@,
            ),
    {
        match self.find(word) {
            Some(handle) => {
                assert(old(self)@.contains(word@)) by {
                    assert(old(self)@[handle.index as int] == word@);
                }
                Some(handle)
            },
            None => {
                let len = self.words.len();
                if len >= MAX_INTERNED {
                    return None;
                }
                self.words.push(String::from_str(word));
                proof {
                    assert(self@ =~= old(self)@.push(word@));
                    assert forall|i: int, j: int| 0 <= i < j < self@.len() implies self@[i]
                        != self@[j] by {
                        if j < old(self)@.len() {
                            assert(old(self)@[i] != old(self)@[j]);
                        } else {
                            assert(old(self)@.contains(old(self)@[i]));
                        }
                    }
                }
                Some(Interned { index: len as u16 })
            },
        }
    }

    /// The word under `handle`.
    pub fn get(&self, handle: Interned) -> (word: &str)
        requires
            self.holds(handle),
        ensures
            word@ == self@[handle.index as int],
    {
        self.words[handle.index as usize].as_str()
    }
}

/// Interning is two-way: a word has one handle only.
pub proof fn lemma_one_handle(interner: Interner, one: Interned, other: Interned)
    requires
        interner.wf(),
        interner.holds(one),
        interner.holds(other),
        interner@[one.index as int] == interner@[other.index as int],
    ensures
        one == other,
{
    if one.index < other.index {
        assert(interner@[one.index as int] != interner@[other.index as int]);
    }
    if other.index < one.index {
        assert(interner@[other.index as int] != interner@[one.index as int]);
    }
}

} // verus!
