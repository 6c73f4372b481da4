//! Balanced brace groups, and variables written `{name=default}`.
//!
//! Here braces nest: a group opens at a `{` met outside any group and closes
//! at the `}` that brings the depth back to zero. A variable is a group
//! wrapped in an odd number of braces around one `=`.
use vstd::prelude::*;
use crate::params::opt_view;
use crate::text::{chars_of, count_of, find_first, find_in, lemma_find_from_bounds, string_of};

verus! {

/// Groups found from position `i` on, at nesting `depth`, the current group
/// having opened at `start`.
pub open spec fn depth_scan(t: Seq<char>, i: int, depth: nat, start: int) -> Seq<(int, int)>
    decreases t.len() - i,
{
    if i < 0 || i >= t.len() {
        seq![]
    } else if t[i] == '{' {
        depth_scan(t, i + 1, depth + 1, if depth == 0 { i } else { start })
    } else if t[i] == '}' && depth > 0 {
        if depth == 1 {
            seq![(start, i + 1)] + depth_scan(t, i + 1, 0, start)
        } else {
            depth_scan(t, i + 1, (depth - 1) as nat, start)
        }
    } else {
        depth_scan(t, i + 1, depth, start)
    }
}

/// The balanced groups of `t`, left to right, as `(start, end)` positions.
pub open spec fn groups(t: Seq<char>) -> Seq<(int, int)> {
    depth_scan(t, 0, 0, 0)
}

/// Extracts every balanced brace group of `input`, braces included. Braces
/// that close nothing are ignored, and a group left open is dropped.
pub fn extract_braces(input: &str) -> (r: Vec<String>)
    ensures
        r@.len() == groups(input@).len(),
        forall|k: int|
            0 <= k < r@.len() ==> (#[trigger] r@[k])@ == input@.subrange(
                groups(input@)[k].0,
                groups(input@)[k].1,
            ),
{
    let t = chars_of(input);
    let mut result: Vec<String> = Vec::new();
    let ghost mut got: Seq<(int, int)> = seq![];
    let mut start: usize = 0;
    let mut depth: usize = 0;
    let mut i: usize = 0;
    while i < t.len()
        invariant
            t@ == input@,
            i <= t@.len(),
            depth <= i,
            depth > 0 ==> start < i,
            got + depth_scan(t@, i as int, depth as nat, start as int) == groups(t@),
            result@.len() == got.len(),
            forall|k: int|
                0 <= k < got.len() ==> (#[trigger] result@[k])@ == t@.subrange(got[k].0, got[k].1),
        decreases t@.len() - i,
    {
        let c = t[i];
        if c == '{' {
            if depth == 0 {
                start = i;
            }
            depth = depth + 1;
        } else if c == '}' && depth > 0 {
            depth = depth - 1;
            if depth == 0 {
                let g = string_of(&t, start, i + 1);
                proof {
                    let rest = depth_scan(t@, i + 1, 0, start as int);
                    assert(got + (seq![(start as int, i + 1)] + rest) =~= got.push(
                        (start as int, i + 1),
                    ) + rest);
                    got = got.push((start as int, i + 1));
                }
                result.push(g);
            }
        }
        i = i + 1;
    }
    proof {
        assert(got + Seq::<(int, int)>::empty() =~= got);
    }
    result
}

/// A variable and its default, if it has a non-empty one.
#[derive(Debug, PartialEq)]
pub struct Variable {
    pub name: String,
    pub default: Option<String>,
}

/// The braces around a variable are unbalanced or even in number.
pub const BRACES_MISMATCH: &'static str = "Invalid input format: mismatched or even number of braces";

/// The variable holds a brace or a space.
pub const INVALID_CHARACTERS: &'static str =
    "Invalid characters in variable name: contains braces or spaces";

/// The variable has no `=`, more than one, or nothing before it.
pub const MISSING_EQUALS: &'static str = "Variable format must contain '=' and a non-empty name";

/// The name before the format is empty.
pub const EMPTY_NAME: &'static str = "Variable name is empty";

/// Number of `c` in a row from position `i` on.
pub open spec fn run_from(s: Seq<char>, c: char, i: int) -> nat
    decreases s.len() - i,
{
    if 0 <= i < s.len() && s[i] == c {
        1 + run_from(s, c, i + 1)
    } else {
        0
    }
}

/// Number of `c` in a row ending just before position `j`.
pub open spec fn run_before(s: Seq<char>, c: char, j: int) -> nat
    decreases j,
{
    if 0 < j <= s.len() && s[j - 1] == c {
        1 + run_before(s, c, j - 1)
    } else {
        0
    }
}

/// What lies inside the opening `{` run and the closing `}` run.
pub open spec fn inner_of(s: Seq<char>) -> Seq<char> {
    s.subrange(run_from(s, '{', 0) as int, s.len() - run_before(s, '}', s.len() as int))
}

/// The part of the inner text before its `=`.
pub open spec fn var_left(s: Seq<char>) -> Seq<char> {
    let v = inner_of(s);
    v.take(find_first(v, '=')->0)
}

/// The name: the left part up to its first `:`.
pub open spec fn var_name(s: Seq<char>) -> Seq<char> {
    let l = var_left(s);
    match find_first(l, ':') {
        Some(j) => l.take(j),
        None => l,
    }
}

/// The default: the non-empty part after the `=`.
pub open spec fn var_default(s: Seq<char>) -> Option<Seq<char>> {
    let v = inner_of(s);
    let k = find_first(v, '=')->0;
    if k + 1 < v.len() {
        Some(v.skip(k + 1))
    } else {
        None
    }
}

/// The first rule that `s` breaks as a variable, if any.
pub open spec fn variable_error(s: Seq<char>) -> Option<&'static str> {
    let l = run_from(s, '{', 0);
    let r = run_before(s, '}', s.len() as int);
    let v = inner_of(s);
    if l != r || l % 2 == 0 {
        Some(BRACES_MISMATCH)
    } else if v.contains('{') || v.contains('}') || v.contains(' ') {
        Some(INVALID_CHARACTERS)
    } else if count_of(v, '=') != 1 || var_left(s).len() == 0 {
        Some(MISSING_EQUALS)
    } else if var_name(s).len() == 0 {
        Some(EMPTY_NAME)
    } else {
        None
    }
}

proof fn lemma_run_from(s: Seq<char>, c: char, i: int)
    requires
        0 <= i <= s.len(),
    ensures
        i + run_from(s, c, i) <= s.len(),
        forall|j: int| i <= j < i + run_from(s, c, i) ==> s[j] == c,
    decreases s.len() - i,
{
    if i < s.len() && s[i] == c {
        lemma_run_from(s, c, i + 1);
    }
}

proof fn lemma_run_before(s: Seq<char>, c: char, j: int)
    requires
        0 <= j <= s.len(),
    ensures
        run_before(s, c, j) <= j,
        forall|m: int| j - run_before(s, c, j) <= m < j ==> s[m] == c,
    decreases j,
{
    if 0 < j && s[j - 1] == c {
        lemma_run_before(s, c, j - 1);
    }
}

/// Whether `t[from..to]` holds `c`.
fn contains_in(t: &Vec<char>, c: char, from: usize, to: usize) -> (r: bool)
    requires
        from <= to <= t@.len(),
    ensures
        r == t@.subrange(from as int, to as int).contains(c),
{
    let ghost v = t@.subrange(from as int, to as int);
    let mut i: usize = from;
    while i < to
        invariant
            from <= i <= to <= t@.len(),
            v == t@.subrange(from as int, to as int),
            forall|j: int| 0 <= j < i - from ==> v[j] != c,
        decreases to - i,
    {
        if t[i] == c {
            assert(v[i - from] == c);
            return true;
        }
        i = i + 1;
    }
    false
}

/// Number of `c` in `t[from..to]`.
fn count_in(t: &Vec<char>, c: char, from: usize, to: usize) -> (r: usize)
    requires
        from <= to <= t@.len(),
    ensures
        r == count_of(t@.subrange(from as int, to as int), c),
{
    let mut n: usize = 0;
    let mut i: usize = from;
    while i < to
        invariant
            from <= i <= to <= t@.len(),
            n <= i - from,
            n == count_of(t@.subrange(from as int, i as int), c),
        decreases to - i,
    {
        proof {
            assert(t@.subrange(from as int, i + 1).drop_last() =~= t@.subrange(
                from as int,
                i as int,
            ));
        }
        if t[i] == c {
            n = n + 1;
        }
        i = i + 1;
    }
    n
}

impl Variable {
    /// Reads a variable from a brace group such as `{name=default}` or
    /// `{{{name:fmt=default}}}`.
    pub fn try_from(input: &str) -> (r: Result<Variable, &'static str>)
        ensures
            r matches Ok(v) ==> variable_error(input@) is None && v.name@ == var_name(input@)
                && opt_view(v.default) == var_default(input@),
            r matches Err(m) ==> variable_error(input@) == Some(m),
    {
        let t = chars_of(input);
        let n = t.len();
        let mut left: usize = 0;
        while left < n && t[left] == '{'
            invariant
                left <= n == t@.len(),
                run_from(t@, '{', 0) == left + run_from(t@, '{', left as int),
            decreases n - left,
        {
            left = left + 1;
        }
        let mut right: usize = 0;
        while right < n && t[n - 1 - right] == '}'
            invariant
                right <= n == t@.len(),
                run_before(t@, '}', n as int) == right + run_before(t@, '}', n - right),
            decreases n - right,
        {
            right = right + 1;
        }
        proof {
            assert(t@ == input@);
            lemma_run_from(t@, '{', 0);
            lemma_run_before(t@, '}', n as int);
            if left + right > n {
                assert(t@[left - 1] == '{');
                assert(t@[left - 1] == '}');
            }
        }
        if left != right || left % 2 == 0 {
            return Err(BRACES_MISMATCH);
        }
        let lo = left;
        let hi = n - right;
        if contains_in(&t, '{', lo, hi) || contains_in(&t, '}', lo, hi) || contains_in(
            &t,
            ' ',
            lo,
            hi,
        ) {
            return Err(INVALID_CHARACTERS);
        }
        let ghost v = t@.subrange(lo as int, hi as int);
        let eqs = count_in(&t, '=', lo, hi);
        let eq = find_in(&t, '=', lo, hi);
        proof {
            lemma_find_from_bounds(v, '=', 0);
            if eqs == 1 && eq is None {
                lemma_count_positive(v, '=');
            }
        }
        let k = match eq {
            Some(k) => k,
            None => {
                return Err(MISSING_EQUALS);
            },
        };
        if eqs != 1 || k == lo {
            proof {
                assert(var_left(input@) =~= t@.subrange(lo as int, k as int));
            }
            return Err(MISSING_EQUALS);
        }
        let colon = find_in(&t, ':', lo, k);
        let name_end = match colon {
            Some(j) => j,
            None => k,
        };
        proof {
            let l = t@.subrange(lo as int, k as int);
            assert(var_left(input@) =~= l);
            lemma_find_from_bounds(l, ':', 0);
            assert(var_name(input@) =~= t@.subrange(lo as int, name_end as int));
            assert(v.skip(k - lo + 1) =~= t@.subrange(k + 1, hi as int));
        }
        if name_end == lo {
            return Err(EMPTY_NAME);
        }
        let name = string_of(&t, lo, name_end);
        let default = if k + 1 < hi {
            Some(string_of(&t, k + 1, hi))
        } else {
            None
        };
        Ok(Variable { name, default })
    }
}

proof fn lemma_count_positive(s: Seq<char>, c: char)
    requires
        count_of(s, c) > 0,
    ensures
        s.contains(c),
    decreases s.len(),
{
    if s.last() == c {
        assert(s[s.len() - 1] == c);
    } else {
        lemma_count_positive(s.drop_last(), c);
        let j = choose|j: int| 0 <= j < s.drop_last().len() && s.drop_last()[j] == c;
        assert(s[j] == c);
    }
}

/// The variables among brace groups `gs`, each as name and default.
pub open spec fn variables_in(gs: Seq<Seq<char>>) -> Seq<(Seq<char>, Option<Seq<char>>)>
    decreases gs.len(),
{
    if gs.len() == 0 {
        seq![]
    } else {
        let rest = variables_in(gs.drop_last());
        if variable_error(gs.last()) is None {
            rest.push((var_name(gs.last()), var_default(gs.last())))
        } else {
            rest
        }
    }
}

/// The variables of `t`, in order.
pub open spec fn variables_of(t: Seq<char>) -> Seq<(Seq<char>, Option<Seq<char>>)> {
    variables_in(groups(t).map_values(|g: (int, int)| t.subrange(g.0, g.1)))
}

/// The variables of a text, in order.
#[derive(Debug, PartialEq)]
pub struct Variables {
    vec: Vec<Variable>,
}

impl Variables {
    /// Name and default of each variable, in order.
    pub closed spec fn models(self) -> Seq<(Seq<char>, Option<Seq<char>>)> {
        self.vec@.map_values(|v: Variable| (v.name@, opt_view(v.default)))
    }

    /// Every brace group of `value` that reads as a variable, in order.
    pub fn from(value: &str) -> (r: Variables)
        ensures
            r.models() == variables_of(value@),
    {
        let gs = extract_braces(value);
        let ghost strs = groups(value@).map_values(|g: (int, int)| value@.subrange(g.0, g.1));
        let mut vec: Vec<Variable> = Vec::new();
        let mut i: usize = 0;
        while i < gs.len()
            invariant
                i <= gs@.len() == strs.len(),
                strs == groups(value@).map_values(|g: (int, int)| value@.subrange(g.0, g.1)),
                forall|k: int| 0 <= k < gs@.len() ==> (#[trigger] gs@[k])@ == strs[k],
                vec@.map_values(|v: Variable| (v.name@, opt_view(v.default))) == variables_in(
                    strs.take(i as int),
                ),
            decreases gs@.len() - i,
        {
            proof {
                assert(strs.take(i + 1).drop_last() =~= strs.take(i as int));
                assert(strs.take(i + 1).last() == strs[i as int]);
            }
            match Variable::try_from(gs[i].as_str()) {
                Ok(v) => {
                    proof {
                        assert(vec@.push(v).map_values(|v: Variable| (v.name@, opt_view(v.default)))
                            =~= vec@.map_values(|v: Variable| (v.name@, opt_view(v.default))).push(
                            (v.name@, opt_view(v.default)),
                        ));
                    }
                    vec.push(v);
                },
                Err(_) => {},
            }
            i = i + 1;
        }
        proof {
            assert(strs.take(i as int) =~= strs);
        }
        Variables { vec }
    }

    /// The variables, in order.
    pub fn as_slice(&self) -> (r: &[Variable])
        ensures
            r@.map_values(|v: Variable| (v.name@, opt_view(v.default))) == self.models(),
    {
        self.vec.as_slice()
    }
}

impl std::ops::Deref for Variables {
    type Target = Vec<Variable>;

    fn deref(&self) -> &Vec<Variable> {
        &self.vec
    }
}

} // verus!
