//! A cursor over the characters of the input, each with its byte offset.
use vstd::prelude::*;
use crate::text::{byte_offset, lemma_byte_offset_mono, lemma_byte_offset_total, width_of};

verus! {

/// The characters of a string, each paired with its byte offset, and the
/// position of the next character to read.
pub struct CharCursor {
    indexed: Vec<(usize, char)>,
    pos: usize,
}

impl CharCursor {
    /// The characters of the input.
    pub closed spec fn text(&self) -> Seq<char> {
        self.indexed@.map_values(|p: (usize, char)| p.1)
    }

    /// Index of the next character to read.
    pub closed spec fn pos(&self) -> int {
        self.pos as int
    }

    pub closed spec fn wf(&self) -> bool {
        &&& self.pos <= self.indexed@.len()
        &&& forall|k: int|
            0 <= k < self.indexed@.len() ==> (#[trigger] self.indexed@[k]).0 == byte_offset(
                self.text(),
                k,
            )
        &&& byte_offset(self.text(), self.text().len() as int) <= usize::MAX
    }

    /// A well-formed cursor stays within its input, whose encoding fits in memory.
    pub proof fn lemma_bounds(&self)
        requires
            self.wf(),
        ensures
            0 <= self.pos() <= self.text().len(),
            self.text().len() <= usize::MAX,
            byte_offset(self.text(), self.text().len() as int) <= usize::MAX,
    {
        lemma_byte_offset_mono(self.text(), 0, self.text().len() as int);
    }

    /// A cursor at the first character of `s`.
    pub fn new(s: &str) -> (c: Self)
        ensures
            c.wf(),
            c.text() == s@,
            c.pos() == 0,
    {
        let total = s.as_bytes().len();
        proof {
            vstd::string::axiom_spec_iter(s);
            lemma_byte_offset_total(s@);
        }
        let mut indexed: Vec<(usize, char)> = Vec::new();
        let mut offset: usize = 0;
        for c in it: s.chars()
            invariant
                it.seq() == s@,
                total == byte_offset(s@, s@.len() as int),
                indexed@.len() == it.index(),
                offset == byte_offset(s@, it.index()),
                forall|k: int|
                    0 <= k < indexed@.len() ==> (#[trigger] indexed@[k]).0 == byte_offset(s@, k)
                        && indexed@[k].1 == s@[k],
        {
            let ghost k = it.index();
            indexed.push((offset, c));
            proof {
                lemma_byte_offset_mono(s@, k + 1, s@.len() as int);
            }
            offset = offset + width_of(c);
        }
        let cur = CharCursor { indexed, pos: 0 };
        assert(cur.text() =~= s@);
        assert(forall|k: int|
            0 <= k < cur.indexed@.len() ==> (#[trigger] cur.indexed@[k]).0 == byte_offset(
                cur.text(),
                k,
            ));
        cur
    }

    /// The next character and its offset, without moving.
    pub fn peek(&self) -> (r: Option<(usize, char)>)
        requires
            self.wf(),
        ensures
            self.pos() < self.text().len() ==> (r matches Some((b, c)) && b == byte_offset(
                self.text(),
                self.pos(),
            ) && c == self.text()[self.pos()]),
            self.pos() >= self.text().len() ==> r is None,
    {
        if self.pos < self.indexed.len() {
            Some(self.indexed[self.pos])
        } else {
            None
        }
    }

    /// The next character and its offset, moving past it.
    pub fn next(&mut self) -> (r: Option<(usize, char)>)
        requires
            old(self).wf(),
        ensures
            final(self).wf(),
            final(self).text() == old(self).text(),
            old(self).pos() < old(self).text().len() ==> (r matches Some((b, c)) && b
                == byte_offset(old(self).text(), old(self).pos()) && c == old(self).text()[old(
                self,
            ).pos()] && final(self).pos() == old(self).pos() + 1),
            old(self).pos() >= old(self).text().len() ==> r is None && final(self).pos() == old(
                self,
            ).pos(),
    {
        if self.pos < self.indexed.len() {
            let r = self.indexed[self.pos];
            self.pos = self.pos + 1;
            Some(r)
        } else {
            None
        }
    }
}

} // verus!
