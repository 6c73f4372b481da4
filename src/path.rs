//! Dotted paths and their successive prefixes (`a`, `a.b`, `a.b.c`).
use vstd::prelude::*;
use crate::text::{chars_of, find_first, find_in, lemma_find_from_bounds, push_char, push_range};

verus! {

/// The parts of `s` between occurrences of `d`; there is always at least one.
pub open spec fn split_parts(s: Seq<char>, d: char) -> Seq<Seq<char>>
    decreases s.len(),
{
    match find_first(s, d) {
        Some(k) => if 0 <= k < s.len() {
            seq![s.take(k)] + split_parts(s.skip(k + 1), d)
        } else {
            seq![s]
        },
        None => seq![s],
    }
}

/// `current` extended by `part`: the delimiter goes between them unless
/// `current` is empty.
pub open spec fn extend(current: Seq<char>, d: char, part: Seq<char>) -> Seq<char> {
    if current.len() == 0 {
        part
    } else {
        current.push(d) + part
    }
}

/// The successive accumulations of `parts`, starting from `current`.
pub open spec fn accumulate(current: Seq<char>, d: char, parts: Seq<Seq<char>>) -> Seq<Seq<char>>
    decreases parts.len(),
{
    if parts.len() == 0 {
        seq![]
    } else {
        let next = extend(current, d, parts[0]);
        seq![next] + accumulate(next, d, parts.drop_first())
    }
}

/// Yields the parts of a text split by a delimiter, each time joined to all
/// those before it.
pub struct SplitAccumulate {
    delimiter: char,
    text: Vec<char>,
    pos: usize,
    done: bool,
    current: String,
}

impl SplitAccumulate {
    #[verifier::type_invariant]
    closed spec fn inv(self) -> bool {
        self.pos <= self.text@.len()
    }

    /// The accumulations still to come.
    pub closed spec fn remaining(self) -> Seq<Seq<char>> {
        if self.done {
            seq![]
        } else {
            accumulate(
                self.current@,
                self.delimiter,
                split_parts(self.text@.skip(self.pos as int), self.delimiter),
            )
        }
    }

    pub fn new(input: &str, delimiter: char) -> (r: Self)
        ensures
            r.remaining() == accumulate(Seq::empty(), delimiter, split_parts(input@, delimiter)),
    {
        let text = chars_of(input);
        let r = SplitAccumulate { delimiter, text, pos: 0, done: false, current: String::new() };
        proof {
            assert(r.text@.skip(0) =~= input@);
        }
        r
    }

    /// The next accumulation, if any.
    pub fn next(&mut self) -> (r: Option<String>)
        ensures
            r is None ==> old(self).remaining().len() == 0 && final(self).remaining().len() == 0,
            r matches Some(s) ==> {
                &&& old(self).remaining().len() > 0
                &&& s@ == old(self).remaining()[0]
                &&& final(self).remaining() == old(self).remaining().drop_first()
            },
    {
        proof {
            use_type_invariant(&*self);
        }
        if self.done {
            return None;
        }
        let ghost rest = self.text@.skip(self.pos as int);
        let ghost cur = self.current@;
        let n = self.text.len();
        let found = find_in(&self.text, self.delimiter, self.pos, n);
        proof {
            assert(rest =~= self.text@.subrange(self.pos as int, n as int));
            lemma_find_from_bounds(rest, self.delimiter, 0);
        }
        let end = match found {
            Some(k) => k,
            None => n,
        };
        let mut next = self.current.clone();
        if !next.as_str().is_empty() {
            push_char(&mut next, self.delimiter);
        }
        push_range(&mut next, &self.text, self.pos, end);
        proof {
            let part = self.text@.subrange(self.pos as int, end as int);
            assert(next@ =~= extend(cur, self.delimiter, part));
            let d = self.delimiter;
            match found {
                Some(k) => {
                    assert(rest.take(k - self.pos) =~= part);
                    assert(rest.skip(k - self.pos + 1) =~= self.text@.skip(k + 1));
                    let after = split_parts(self.text@.skip(k + 1), d);
                    assert(split_parts(rest, d) == seq![part] + after);
                    assert((seq![part] + after).drop_first() =~= after);
                },
                None => {
                    assert(rest =~= part);
                    assert(split_parts(rest, d) == seq![part]);
                    assert(seq![part].drop_first() =~= Seq::<Seq<char>>::empty());
                },
            }
        }
        match found {
            Some(k) => {
                self.pos = k + 1;
            },
            None => {
                self.done = true;
            },
        }
        self.current = next.clone();
        proof {
            let d = self.delimiter;
            let parts = split_parts(rest, d);
            let all = accumulate(cur, d, parts);
            assert(all == seq![next@] + accumulate(next@, d, parts.drop_first()));
            assert(all.drop_first() =~= accumulate(next@, d, parts.drop_first()));
        }
        Some(next)
    }
}

/// All accumulations of `input` split by `delimiter`, in order.
pub fn split_accumulate(input: &str, delimiter: char) -> (r: Vec<String>)
    ensures
        r@.map_values(|s: String| s@) == accumulate(
            Seq::empty(),
            delimiter,
            split_parts(input@, delimiter),
        ),
{
    let mut it = SplitAccumulate::new(input, delimiter);
    let ghost all = it.remaining();
    let mut r: Vec<String> = Vec::new();
    loop
        invariant
            all == accumulate(Seq::empty(), delimiter, split_parts(input@, delimiter)),
            r@.map_values(|s: String| s@) + it.remaining() == all,
        decreases it.remaining().len(),
    {
        let ghost before = it.remaining();
        match it.next() {
            None => {
                proof {
                    assert(r@.map_values(|s: String| s@) + it.remaining() =~= r@.map_values(
                        |s: String| s@,
                    ));
                }
                return r;
            },
            Some(s) => {
                proof {
                    assert(r@.push(s).map_values(|s: String| s@) =~= r@.map_values(|s: String| s@).push(
                        s@,
                    ));
                    assert(r@.map_values(|s: String| s@).push(s@) + before.drop_first() =~= r@.map_values(
                        |s: String| s@,
                    ) + before);
                }
                r.push(s);
            },
        }
    }
}

} // verus!
