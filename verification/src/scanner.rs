//! A read-only cursor over character data with no grammar knowledge.
//!
//! The scanner owns a fixed sequence of characters and a cursor into it,
//! and keeps the 1-based line/column location of the cursor up to date as
//! characters are consumed.

use vstd::prelude::*;

use crate::{line_col_at, lemma_line_col_at_bounds, Location};

verus! {

pub struct Scanner {
    pub cursor: usize,
    pub loc: Location,
    pub characters: Vec<char>,
}

impl Scanner {
    /// The cursor stays inside the character sequence and `loc` is the
    /// line/column position of the cursor.
    ///
    /// The strict length bound leaves room for the 1-based location
    /// bookkeeping: lines and columns never exceed the length plus one.
    pub open spec fn wf(&self) -> bool {
        &&& self.cursor <= self.characters@.len()
        &&& self.characters@.len() < usize::MAX
        &&& self.loc@ == line_col_at(self.characters@, self.cursor as int)
    }

    /// The characters the scanner ranges over.
    pub open spec fn src(&self) -> Seq<char> {
        self.characters@
    }

    pub fn new(s: &str) -> (r: Scanner)
        requires
            s@.len() < usize::MAX,
        ensures
            r.wf(),
            r.cursor == 0,
            r.src() == s@,
    {
        Scanner { cursor: 0, loc: Location { line: 1, col: 1 }, characters: str_chars(s) }
    }

    pub fn index(&self) -> (r: usize)
        ensures
            r == self.cursor,
    {
        self.cursor
    }

    pub fn loc(&self) -> (r: Location)
        ensures
            r == self.loc,
    {
        self.loc
    }

    pub fn is_empty(&self) -> (r: bool)
        requires
            self.wf(),
        ensures
            r == (self.cursor == self.src().len()),
    {
        self.cursor == self.characters.len()
    }

    pub fn not_empty(&self) -> (r: bool)
        requires
            self.wf(),
        ensures
            r == (self.cursor < self.src().len()),
    {
        self.cursor != self.characters.len()
    }

    pub fn len(&self) -> (r: usize)
        requires
            self.wf(),
        ensures
            r == self.src().len() - self.cursor,
    {
        self.characters.len() - self.cursor
    }

    /// Returns and consumes the character at the cursor, advancing the
    /// location bookkeeping: a newline moves to column 1 of the next line,
    /// any other character advances the column.
    pub fn next(&mut self) -> (r: Option<char>)
        requires
            old(self).wf(),
        ensures
            final(self).wf(),
            final(self).src() == old(self).src(),
            old(self).cursor < old(self).src().len() ==> {
                &&& r == Some(old(self).src()[old(self).cursor as int])
                &&& final(self).cursor == old(self).cursor + 1
            },
            old(self).cursor == old(self).src().len() ==> r is None && *final(self) == *old(
                self,
            ),
    {
        if self.is_empty() {
            None
        } else {
            let c = self.characters[self.cursor];
            proof {
                lemma_line_col_at_bounds(self.characters@, self.cursor as int);
            }
            self.cursor = self.cursor + 1;
            if c == '\n' {
                self.loc.line = self.loc.line + 1;
                self.loc.col = 1;
            } else {
                self.loc.col = self.loc.col + 1;
            }
            Some(c)
        }
    }

    /// Advances past the character at the cursor only if it equals `c`.
    pub fn take(&mut self, c: char) -> (r: Option<char>)
        requires
            old(self).wf(),
        ensures
            final(self).wf(),
            final(self).src() == old(self).src(),
            if old(self).cursor < old(self).src().len() && old(self).src()[old(self).cursor as int]
                == c {
                r == Some(c) && final(self).cursor == old(self).cursor + 1
            } else {
                r is None && *final(self) == *old(self)
            },
    {
        if self.is_empty() {
            None
        } else if self.next_is(c) {
            self.next()
        } else {
            None
        }
    }

    /// Consumes exactly `count` characters and returns them, or returns
    /// `None` without moving when `count` is zero or exceeds what is left.
    pub fn skip(&mut self, count: usize) -> (r: Option<String>)
        requires
            old(self).wf(),
        ensures
            final(self).wf(),
            final(self).src() == old(self).src(),
            if count == 0 || old(self).src().len() - old(self).cursor < count {
                r is None && *final(self) == *old(self)
            } else {
                &&& final(self).cursor == old(self).cursor + count
                &&& r matches Some(s) && s@ == old(self).src().subrange(
                    old(self).cursor as int,
                    old(self).cursor + count,
                )
            },
    {
        if self.len() < count || count == 0 {
            None
        } else {
            let ghost start = self.cursor as int;
            let mut out: Vec<char> = Vec::new();
            let mut i: usize = 0;
            while i < count
                invariant
                    self.wf(),
                    self.src() == old(self).src(),
                    i <= count,
                    0 <= start,
                    self.cursor == start + i,
                    start + count <= self.src().len(),
                    out@ == self.src().subrange(start, start + i),
                decreases count - i,
            {
                let c = self.next();
                match c {
                    Some(c) => out.push(c),
                    None => (),
                }
                i = i + 1;
                proof {
                    assert(out@ =~= self.src().subrange(start, start + i));
                }
            }
            Some(chars_to_string(out))
        }
    }

    /// The character at the cursor, without advancing.
    pub fn peek(&self) -> (r: Option<char>)
        requires
            self.wf(),
        ensures
            if self.cursor < self.src().len() {
                r == Some(self.src()[self.cursor as int])
            } else {
                r is None
            },
    {
        if self.is_empty() {
            None
        } else {
            Some(self.characters[self.cursor])
        }
    }

    /// Whether the character at the cursor equals `c`.
    pub fn next_is(&self, c: char) -> (r: bool)
        requires
            self.wf(),
        ensures
            r == (self.cursor < self.src().len() && self.src()[self.cursor as int] == c),
    {
        self.peek() == Some(c)
    }

    /// Whether the character at the cursor occurs in `chars`.
    pub fn next_is_one_of(&self, chars: &str) -> (r: bool)
        requires
            self.wf(),
        ensures
            r == (self.cursor < self.src().len() && chars@.contains(
                self.src()[self.cursor as int],
            )),
    {
        let cs = str_chars(chars);
        let mut j: usize = 0;
        while j < cs.len()
            invariant
                self.wf(),
                cs@ == chars@,
                j <= cs@.len(),
                forall|k: int|
                    0 <= k < j ==> !(self.cursor < self.src().len() && self.src()[self.cursor as int]
                        == cs@[k]),
            decreases cs@.len() - j,
        {
            if self.next_is(cs[j]) {
                return true;
            }
            j = j + 1;
        }
        false
    }

    /// Whether the character at the cursor satisfies `fun`; false at the
    /// end of the input.
    pub fn next_matches<F: Fn(char) -> bool>(&self, fun: F) -> (r: bool)
        requires
            self.wf(),
            forall|c: char| #[trigger] call_requires(fun, (c,)),
        ensures
            self.cursor < self.src().len() ==> call_ensures(
                fun,
                (self.src()[self.cursor as int],),
                r,
            ),
            self.cursor >= self.src().len() ==> r == false,
    {
        match self.peek() {
            Some(c) => fun(c),
            None => false,
        }
    }

    /// Greedily consumes a maximal run of characters satisfying `fun`;
    /// returns `None` (not an empty string) if the run is empty.
    pub fn take_while<F: Fn(char) -> bool>(&mut self, fun: F) -> (r: Option<String>)
        requires
            old(self).wf(),
            forall|c: char| #[trigger] call_requires(fun, (c,)),
        ensures
            final(self).wf(),
            final(self).src() == old(self).src(),
            old(self).cursor <= final(self).cursor <= final(self).src().len(),
            forall|k: int|
                old(self).cursor <= k < final(self).cursor ==> call_ensures(
                    fun,
                    (old(self).src()[k],),
                    true,
                ),
            final(self).cursor < final(self).src().len() ==> call_ensures(
                fun,
                (final(self).src()[final(self).cursor as int],),
                false,
            ),
            match r {
                Some(s) => final(self).cursor > old(self).cursor && s@ == old(self).src().subrange(
                    old(self).cursor as int,
                    final(self).cursor as int,
                ),
                None => final(self).cursor == old(self).cursor,
            },
    {
        let ghost start = self.cursor as int;
        let ghost src = self.characters@;
        let mut out: Vec<char> = Vec::new();
        loop
            invariant
                self.wf(),
                self.characters@ == src,
                0 <= start <= self.cursor <= src.len(),
                out@ == src.subrange(start, self.cursor as int),
                forall|k: int| start <= k < self.cursor ==> call_ensures(fun, (src[k],), true),
                forall|c: char| #[trigger] call_requires(fun, (c,)),
            ensures
                self.wf(),
                self.characters@ == src,
                0 <= start <= self.cursor <= src.len(),
                out@ == src.subrange(start, self.cursor as int),
                forall|k: int| start <= k < self.cursor ==> call_ensures(fun, (src[k],), true),
                self.cursor < src.len() ==> call_ensures(
                    fun,
                    (src[self.cursor as int],),
                    false,
                ),
            decreases src.len() - self.cursor,
        {
            match self.peek() {
                Some(c) => {
                    if fun(c) {
                        let _ = self.next();
                        out.push(c);
                        proof {
                            assert(out@ =~= src.subrange(start, self.cursor as int));
                        }
                    } else {
                        break ;
                    }
                },
                None => {
                    break ;
                },
            }
        }
        if out.len() == 0 {
            None
        } else {
            Some(chars_to_string(out))
        }
    }

    /// Consumes the character at the cursor only if it satisfies `fun`.
    pub fn take_if<F: Fn(char) -> bool>(&mut self, fun: F) -> (r: Option<char>)
        requires
            old(self).wf(),
            forall|c: char| #[trigger] call_requires(fun, (c,)),
        ensures
            final(self).wf(),
            final(self).src() == old(self).src(),
            match r {
                Some(c) => {
                    &&& old(self).cursor < old(self).src().len()
                    &&& c == old(self).src()[old(self).cursor as int]
                    &&& call_ensures(fun, (c,), true)
                    &&& final(self).cursor == old(self).cursor + 1
                },
                None => *final(self) == *old(self) && (old(self).cursor < old(self).src().len()
                    ==> call_ensures(fun, (old(self).src()[old(self).cursor as int],), false)),
            },
    {
        match self.peek() {
            Some(c) => {
                if fun(c) {
                    self.next()
                } else {
                    None
                }
            },
            None => None,
        }
    }

    /// Greedily consumes a maximal run of characters that do not satisfy
    /// `fun`: sugar for `take_while` with the predicate negated.
    pub fn take_until<F: Fn(char) -> bool>(&mut self, fun: F) -> (r: Option<String>)
        requires
            old(self).wf(),
            forall|c: char| #[trigger] call_requires(fun, (c,)),
        ensures
            final(self).wf(),
            final(self).src() == old(self).src(),
            old(self).cursor <= final(self).cursor <= final(self).src().len(),
            forall|k: int|
                old(self).cursor <= k < final(self).cursor ==> call_ensures(
                    fun,
                    (old(self).src()[k],),
                    false,
                ),
            final(self).cursor < final(self).src().len() ==> call_ensures(
                fun,
                (final(self).src()[final(self).cursor as int],),
                true,
            ),
            match r {
                Some(s) => final(self).cursor > old(self).cursor && s@ == old(self).src().subrange(
                    old(self).cursor as int,
                    final(self).cursor as int,
                ),
                None => final(self).cursor == old(self).cursor,
            },
    {
        let fref: &F = &fun;
        let negated = (|x: char| -> (b: bool)
            ensures
                call_ensures(*fref, (x,), !b),
            {
                !fref(x)
            });
        self.take_while(negated)
    }

    /// The maximal run of characters satisfying `fun` starting at the
    /// cursor, without consuming anything; `None` if the run is empty.
    pub fn peek_while<F: Fn(char) -> bool>(&mut self, fun: F) -> (r: Option<String>)
        requires
            old(self).wf(),
            forall|c: char| #[trigger] call_requires(fun, (c,)),
        ensures
            *final(self) == *old(self),
            match r {
                Some(s) => {
                    let j = old(self).cursor + s@.len();
                    &&& s@.len() > 0
                    &&& j <= old(self).src().len()
                    &&& s@ == old(self).src().subrange(old(self).cursor as int, j)
                    &&& forall|k: int|
                        old(self).cursor <= k < j ==> call_ensures(fun, (old(self).src()[k],), true)
                    &&& j < old(self).src().len() ==> call_ensures(
                        fun,
                        (old(self).src()[j],),
                        false,
                    )
                },
                None => old(self).cursor == old(self).src().len() || call_ensures(
                    fun,
                    (old(self).src()[old(self).cursor as int],),
                    false,
                ),
            },
    {
        let ghost src = self.characters@;
        let mut out: Vec<char> = Vec::new();
        let mut j: usize = self.cursor;
        loop
            invariant
                self.wf(),
                *self == *old(self),
                self.characters@ == src,
                self.cursor <= j <= src.len(),
                out@ == src.subrange(self.cursor as int, j as int),
                forall|k: int| self.cursor <= k < j ==> call_ensures(fun, (src[k],), true),
                forall|c: char| #[trigger] call_requires(fun, (c,)),
            ensures
                self.cursor <= j <= src.len(),
                out@ == src.subrange(self.cursor as int, j as int),
                forall|k: int| self.cursor <= k < j ==> call_ensures(fun, (src[k],), true),
                j < src.len() ==> call_ensures(fun, (src[j as int],), false),
            decreases src.len() - j,
        {
            if j == self.characters.len() {
                break ;
            }
            let c = self.characters[j];
            if fun(c) {
                out.push(c);
                j = j + 1;
                proof {
                    assert(out@ =~= src.subrange(self.cursor as int, j as int));
                }
            } else {
                break ;
            }
        }
        if out.len() == 0 {
            None
        } else {
            Some(chars_to_string(out))
        }
    }

    /// The maximal run of characters that do not satisfy `fun` starting at
    /// the cursor, without consuming anything.
    pub fn peek_until<F: Fn(char) -> bool>(&mut self, fun: F) -> (r: Option<String>)
        requires
            old(self).wf(),
            forall|c: char| #[trigger] call_requires(fun, (c,)),
        ensures
            *final(self) == *old(self),
            match r {
                Some(s) => {
                    let j = old(self).cursor + s@.len();
                    &&& s@.len() > 0
                    &&& j <= old(self).src().len()
                    &&& s@ == old(self).src().subrange(old(self).cursor as int, j)
                    &&& forall|k: int|
                        old(self).cursor <= k < j ==> call_ensures(
                            fun,
                            (old(self).src()[k],),
                            false,
                        )
                    &&& j < old(self).src().len() ==> call_ensures(fun, (old(self).src()[j],), true)
                },
                None => old(self).cursor == old(self).src().len() || call_ensures(
                    fun,
                    (old(self).src()[old(self).cursor as int],),
                    true,
                ),
            },
    {
        let fref: &F = &fun;
        let negated = (|x: char| -> (b: bool)
            ensures
                call_ensures(*fref, (x,), !b),
            {
                !fref(x)
            });
        self.peek_while(negated)
    }

    /// The 1-based line/column position of `index` into the characters,
    /// clamped to their end, computed by walking the prefix.
    pub fn line_col(&self, index: usize) -> (r: Location)
        requires
            self.wf(),
        ensures
            r@ == line_col_at(
                self.src(),
                if index <= self.src().len() {
                    index as int
                } else {
                    self.src().len() as int
                },
            ),
    {
        let end = if index < self.characters.len() {
            index
        } else {
            self.characters.len()
        };
        let mut line: usize = 1;
        let mut col: usize = 1;
        let mut k: usize = 0;
        while k < end
            invariant
                self.wf(),
                end <= self.src().len(),
                k <= end,
                line as int == line_col_at(self.src(), k as int).line,
                col as int == line_col_at(self.src(), k as int).col,
            decreases end - k,
        {
            proof {
                lemma_line_col_at_bounds(self.characters@, k as int);
            }
            if self.characters[k] == '\n' {
                line = line + 1;
                col = 1;
            } else {
                col = col + 1;
            }
            k = k + 1;
        }
        Location { line, col }
    }
}

/// Relies on `String`'s `FromIterator` over `char`: collecting the
/// characters of a vector builds the string of exactly those characters,
/// in order.
#[verifier::external_body]
pub(crate) fn chars_to_string(v: Vec<char>) -> (r: String)
    ensures
        r@ == v@,
{
    v.into_iter().collect()
}

/// The characters of `s`, in order, as a vector.
pub(crate) fn str_chars(s: &str) -> (r: Vec<char>)
    ensures
        r@ == s@,
{
    let mut out: Vec<char> = Vec::new();
    for c in it: s.chars()
        invariant
            it.seq() == s@,
            out@ == it.seq().take(it.index() as int),
    {
        out.push(c);
    }
    proof {
        assert(out@ =~= s@);
    }
    out
}

} // verus!
