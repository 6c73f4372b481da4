//! Placeholders as parameters: name, optional format and optional default.
//!
//! The content of a placeholder is split at its first `=` (what follows is
//! the default) and what precedes at its first `:` (what follows is the
//! format). An empty format or an empty default counts as absent. A
//! placeholder whose name is empty is not a parameter.
use vstd::prelude::*;
use crate::scan::{
    lemma_scan_from_ordered, next_brace, ordered_spans, scan_from, spans, well_formed_span,
};
use crate::text::{
    advance_bytes, byte_len, chars_and_len, chars_of, find_first, find_in,
    lemma_find_from_bounds, push_char, push_range, push_str, string_of,
};

verus! {

/// What a parameter holds: its span (character positions, `{` to just past
/// `}`), the same span in bytes, its content between the braces, and the
/// parts of that content.
pub ghost struct ParamModel {
    pub char_start: int,
    pub char_end: int,
    pub byte_start: int,
    pub byte_end: int,
    pub content: Seq<char>,
    pub name: Seq<char>,
    pub format: Option<Seq<char>>,
    pub default: Option<Seq<char>>,
    pub name_format: Seq<char>,
}

/// The content before its first `=` (all of it when there is none).
pub open spec fn name_format_of(c: Seq<char>) -> Seq<char> {
    match find_first(c, '=') {
        Some(k) => c.take(k),
        None => c,
    }
}

/// The non-empty text after the first `=`, if any.
pub open spec fn default_of(c: Seq<char>) -> Option<Seq<char>> {
    match find_first(c, '=') {
        Some(k) => if k + 1 < c.len() {
            Some(c.skip(k + 1))
        } else {
            None
        },
        None => None,
    }
}

/// The name: what precedes the first `:` of the part before the first `=`.
pub open spec fn name_of(c: Seq<char>) -> Seq<char> {
    let nf = name_format_of(c);
    match find_first(nf, ':') {
        Some(j) => nf.take(j),
        None => nf,
    }
}

/// The non-empty text between the first `:` and the first `=`, if any.
pub open spec fn format_of(c: Seq<char>) -> Option<Seq<char>> {
    let nf = name_format_of(c);
    match find_first(nf, ':') {
        Some(j) => if j + 1 < nf.len() {
            Some(nf.skip(j + 1))
        } else {
            None
        },
        None => None,
    }
}

/// Content that makes a parameter: its name is not empty.
pub open spec fn parses(c: Seq<char>) -> bool {
    name_of(c).len() > 0
}

pub open spec fn param_model(
    char_start: int,
    char_end: int,
    c: Seq<char>,
    byte_start: int,
    byte_end: int,
) -> ParamModel {
    ParamModel {
        char_start,
        char_end,
        byte_start,
        byte_end,
        content: c,
        name: name_of(c),
        format: format_of(c),
        default: default_of(c),
        name_format: name_format_of(c),
    }
}

/// The content of span `sp` of `t`: what lies strictly between its braces.
pub open spec fn content_of(t: Seq<char>, sp: (int, int)) -> Seq<char> {
    t.subrange(sp.0 + 1, sp.1 - 1)
}

/// The parameters among spans `sps` of `t`, in order.
pub open spec fn parsed(t: Seq<char>, sps: Seq<(int, int)>) -> Seq<ParamModel>
    decreases sps.len(),
{
    if sps.len() == 0 {
        seq![]
    } else {
        let c = content_of(t, sps[0]);
        let rest = parsed(t, sps.drop_first());
        if parses(c) {
            seq![
                param_model(
                    sps[0].0,
                    sps[0].1,
                    c,
                    byte_len(t.take(sps[0].0)),
                    byte_len(t.take(sps[0].1)),
                ),
            ] + rest
        } else {
            rest
        }
    }
}

/// The parameters of `t`, in order.
pub open spec fn parameters_of(t: Seq<char>) -> Seq<ParamModel> {
    parsed(t, spans(t))
}

pub open spec fn opt_view(o: Option<String>) -> Option<Seq<char>> {
    match o {
        Some(s) => Some(s@),
        None => None,
    }
}

pub open spec fn opt_str_view(o: Option<&str>) -> Option<Seq<char>> {
    match o {
        Some(s) => Some(s@),
        None => None,
    }
}

/// A section of text enclosed in braces.
#[derive(Debug, PartialEq)]
pub struct Brace {
    char_start: usize,
    char_end: usize,
    byte_start: usize,
    byte_end: usize,
    content: String,
}

impl View for Brace {
    /// Character span, content, and byte span.
    type V = (int, int, Seq<char>, int, int);

    closed spec fn view(&self) -> (int, int, Seq<char>, int, int) {
        (
            self.char_start as int,
            self.char_end as int,
            self.content@,
            self.byte_start as int,
            self.byte_end as int,
        )
    }
}

impl Brace {
    /// The text between the braces.
    pub fn content(&self) -> (r: &str)
        ensures
            r@ == self@.2,
    {
        self.content.as_str()
    }

    /// Byte offset of the opening brace.
    pub fn start(&self) -> (r: usize)
        ensures
            r == self@.3,
    {
        self.byte_start
    }

    /// Byte offset just past the closing brace.
    pub fn end(&self) -> (r: usize)
        ensures
            r == self@.4,
    {
        self.byte_end
    }
}

/// Walks the braces of a text, left to right.
#[derive(Debug, PartialEq)]
pub struct BraceIterator {
    text: Vec<char>,
    /// Character position and byte offset where the walk goes on.
    at: (usize, usize),
}

impl BraceIterator {
    #[verifier::type_invariant]
    closed spec fn inv(self) -> bool {
        &&& self.at.0 <= self.text@.len()
        &&& self.at.1 == byte_len(self.text@.take(self.at.0 as int))
        &&& byte_len(self.text@) <= usize::MAX
    }

    /// The text walked.
    pub closed spec fn text(self) -> Seq<char> {
        self.text@
    }

    /// The spans still to come.
    pub closed spec fn remaining(self) -> Seq<(int, int)> {
        scan_from(self.text@, self.at.0 as int, None)
    }

    pub fn new(input: &str) -> (r: Self)
        ensures
            r.text() == input@,
            r.remaining() == spans(input@),
    {
        let (text, n) = chars_and_len(input);
        proof {
            assert(text@.take(0) =~= Seq::<char>::empty());
            assert(vstd::utf8::encode_utf8(Seq::<char>::empty()) =~= Seq::<u8>::empty());
        }
        BraceIterator { text, at: (0, 0) }
    }

    /// The next brace, if any.
    pub fn next(&mut self) -> (r: Option<Brace>)
        ensures
            final(self).text() == old(self).text(),
            r is None ==> old(self).remaining().len() == 0 && final(self).remaining().len() == 0,
            r matches Some(b) ==> {
                let sp = old(self).remaining()[0];
                &&& old(self).remaining().len() > 0
                &&& b@ == (
                    sp.0,
                    sp.1,
                    content_of(old(self).text(), sp),
                    byte_len(old(self).text().take(sp.0)),
                    byte_len(old(self).text().take(sp.1)),
                )
                &&& final(self).remaining() == old(self).remaining().drop_first()
            },
    {
        proof {
            use_type_invariant(&*self);
        }
        match next_brace(&self.text, self.at.0) {
            None => None,
            Some(sp) => {
                proof {
                    lemma_scan_from_ordered(self.text@, self.at.0 as int, None);
                    let all = scan_from(self.text@, self.at.0 as int, None);
                    assert(all[0] == (sp.0 as int, sp.1 as int));
                    assert(well_formed_span(self.text@, all[0]));
                    assert(all.drop_first() =~= scan_from(self.text@, sp.1 as int, None));
                }
                let content = string_of(&self.text, sp.0 + 1, sp.1 - 1);
                let byte_start = advance_bytes(&self.text, self.at.0, sp.0, self.at.1);
                let byte_end = advance_bytes(&self.text, sp.0, sp.1, byte_start);
                self.at = (sp.1, byte_end);
                Some(Brace { char_start: sp.0, char_end: sp.1, byte_start, byte_end, content })
            },
        }
    }
}

/// A parameter found in a text.
#[derive(Debug, PartialEq)]
pub struct Parameter {
    char_start: usize,
    char_end: usize,
    byte_start: usize,
    byte_end: usize,
    content: String,
    name: String,
    format: Option<String>,
    default: Option<String>,
    name_format: String,
}

impl View for Parameter {
    type V = ParamModel;

    closed spec fn view(&self) -> ParamModel {
        ParamModel {
            char_start: self.char_start as int,
            char_end: self.char_end as int,
            byte_start: self.byte_start as int,
            byte_end: self.byte_end as int,
            content: self.content@,
            name: self.name@,
            format: opt_view(self.format),
            default: opt_view(self.default),
            name_format: self.name_format@,
        }
    }
}

/// Why a placeholder, or a set of them, is refused.
#[derive(Debug, PartialEq)]
pub enum ParameterError {
    /// The placeholder's name is empty; holds its content.
    EmptyName(String),
    /// Two parameters share a name; holds it.
    DuplicateName(String),
}

/// `t[from..to]` as a string when it is not empty, else nothing.
fn opt_string(t: &Vec<char>, from: usize, to: usize) -> (r: Option<String>)
    requires
        from <= to <= t@.len(),
    ensures
        opt_view(r) == if from < to {
            Some(t@.subrange(from as int, to as int))
        } else {
            None
        },
{
    if from < to {
        Some(string_of(t, from, to))
    } else {
        None
    }
}

impl Parameter {
    /// Parses the content of `brace`.
    pub fn try_from(brace: &Brace) -> (r: Result<Parameter, ParameterError>)
        ensures
            r matches Ok(p) ==> parses(brace@.2) && p@ == param_model(
                brace@.0,
                brace@.1,
                brace@.2,
                brace@.3,
                brace@.4,
            ),
            r matches Err(e) ==> !parses(brace@.2) && (e matches ParameterError::EmptyName(c)
                && c@ == brace@.2),
    {
        let c = chars_of(brace.content());
        let n = c.len();
        let ghost cs = c@;
        proof {
            assert(cs.subrange(0, n as int) =~= cs);
        }
        let eq = find_in(&c, '=', 0, n);
        let nf_end = match eq {
            Some(k) => k,
            None => n,
        };
        proof {
            lemma_find_from_bounds(cs, '=', 0);
            assert(name_format_of(cs) =~= cs.subrange(0, nf_end as int));
        }
        let colon = find_in(&c, ':', 0, nf_end);
        let name_end = match colon {
            Some(j) => j,
            None => nf_end,
        };
        proof {
            let nf = cs.subrange(0, nf_end as int);
            lemma_find_from_bounds(nf, ':', 0);
            assert(name_of(cs) =~= cs.subrange(0, name_end as int));
            match colon {
                Some(j) => {
                    assert(nf.skip(j + 1) =~= cs.subrange(j + 1, nf_end as int));
                },
                None => {},
            }
            match eq {
                Some(k) => {
                    assert(cs.skip(k + 1) =~= cs.subrange(k + 1, n as int));
                },
                None => {},
            }
        }
        if name_end == 0 {
            return Err(ParameterError::EmptyName(brace.content.clone()));
        }
        let name = string_of(&c, 0, name_end);
        let format = match colon {
            Some(j) => opt_string(&c, j + 1, nf_end),
            None => None,
        };
        let default = match eq {
            Some(k) => opt_string(&c, k + 1, n),
            None => None,
        };
        let name_format = string_of(&c, 0, nf_end);
        Ok(
            Parameter {
                char_start: brace.char_start,
                char_end: brace.char_end,
                byte_start: brace.byte_start,
                byte_end: brace.byte_end,
                content: brace.content.clone(),
                name,
                format,
                default,
                name_format,
            },
        )
    }

    /// Byte offset of the opening brace.
    pub fn start(&self) -> (r: usize)
        ensures
            r == self@.byte_start,
    {
        self.byte_start
    }

    /// Byte offset just past the closing brace.
    pub fn end(&self) -> (r: usize)
        ensures
            r == self@.byte_end,
    {
        self.byte_end
    }

    /// The text between the braces.
    pub fn content(&self) -> (r: &str)
        ensures
            r@ == self@.content,
    {
        self.content.as_str()
    }

    /// The name.
    pub fn name(&self) -> (r: &str)
        ensures
            r@ == self@.name,
    {
        self.name.as_str()
    }

    /// The format, if any.
    pub fn format(&self) -> (r: Option<&str>)
        ensures
            opt_str_view(r) == self@.format,
    {
        match &self.format {
            Some(f) => Some(f.as_str()),
            None => None,
        }
    }

    /// The default, if any.
    pub fn default(&self) -> (r: Option<&str>)
        ensures
            opt_str_view(r) == self@.default,
    {
        match &self.default {
            Some(d) => Some(d.as_str()),
            None => None,
        }
    }

    /// The content without its default: the name, then `:` and the format
    /// where they were written.
    pub fn name_with_format(&self) -> (r: &str)
        ensures
            r@ == self@.name_format,
    {
        self.name_format.as_str()
    }
}


/// Each parameter lies within `t`, starts at or after `lb`, and ends before
/// the next one starts.
pub open spec fn ordered_params(t: Seq<char>, ps: Seq<ParamModel>, lb: int) -> bool {
    &&& forall|k: int|
        0 <= k < ps.len() ==> lb <= (#[trigger] ps[k]).char_start && ps[k].char_start < ps[k].char_end
            <= t.len()
    &&& forall|k: int| 0 <= k < ps.len() - 1 ==> (#[trigger] ps[k]).char_end <= ps[k + 1].char_start
}

pub proof fn lemma_parsed_ordered(t: Seq<char>, sps: Seq<(int, int)>, lb: int)
    requires
        ordered_spans(t, sps, lb),
    ensures
        ordered_params(t, parsed(t, sps), lb),
        forall|k: int|
            0 <= k < parsed(t, sps).len() ==> (#[trigger] parsed(t, sps)[k]).content
                == content_of(t, (parsed(t, sps)[k].char_start, parsed(t, sps)[k].char_end)),
    decreases sps.len(),
{
    if sps.len() > 0 {
        let rest = sps.drop_first();
        let lb2 = sps[0].1;
        assert forall|k: int| 0 <= k < rest.len() implies well_formed_span(t, #[trigger] rest[k])
            by {
            assert(rest[k] == sps[k + 1]);
        }
        assert forall|k: int| 0 <= k < rest.len() implies lb2 <= (#[trigger] rest[k]).0 by {
            assert(rest[k] == sps[k + 1]);
            if k > 0 {
                assert(rest[k - 1] == sps[k]);
                assert(well_formed_span(t, sps[k]));
                assert(sps[k - 1 + 1] == sps[k]);
                lemma_spans_chain(sps, 0, k);
            }
        }
        assert forall|k: int| 0 <= k < rest.len() - 1 implies (#[trigger] rest[k]).1 <= rest[k
            + 1].0 by {
            assert(rest[k] == sps[k + 1]);
            assert(rest[k + 1] == sps[k + 2]);
        }
        lemma_parsed_ordered(t, rest, lb2);
        assert(well_formed_span(t, sps[0]));
    }
}

/// In ordered spans, a later span starts after an earlier one ends.
proof fn lemma_spans_chain(sps: Seq<(int, int)>, i: int, j: int)
    requires
        0 <= i < j < sps.len(),
        forall|k: int| 0 <= k < sps.len() ==> (#[trigger] sps[k]).0 < sps[k].1,
        forall|k: int| 0 <= k < sps.len() - 1 ==> (#[trigger] sps[k]).1 <= sps[k + 1].0,
    ensures
        sps[i].1 <= sps[j].0,
    decreases j - i,
{
    if j > i + 1 {
        lemma_spans_chain(sps, i, j - 1);
        assert(sps[j - 1].1 <= sps[j - 1 + 1].0);
    }
}

pub proof fn lemma_parameters_ordered(t: Seq<char>)
    ensures
        ordered_params(t, parameters_of(t), 0),
        forall|k: int|
            0 <= k < parameters_of(t).len() ==> (#[trigger] parameters_of(t)[k]).content
                == content_of(t, (parameters_of(t)[k].char_start, parameters_of(t)[k].char_end)),
{
    lemma_scan_from_ordered(t, 0, None);
    lemma_parsed_ordered(t, spans(t), 0);
}

/// Walks the parameters of a text, left to right, skipping placeholders
/// whose name is empty.
pub struct ParameterIterator {
    braces: BraceIterator,
}

impl ParameterIterator {
    /// The text walked.
    pub closed spec fn text(self) -> Seq<char> {
        self.braces.text()
    }

    /// The parameters still to come.
    pub closed spec fn remaining(self) -> Seq<ParamModel> {
        parsed(self.braces.text(), self.braces.remaining())
    }

    pub fn new(input: &str) -> (r: Self)
        ensures
            r.text() == input@,
            r.remaining() == parameters_of(input@),
    {
        ParameterIterator { braces: BraceIterator::new(input) }
    }

    /// The next parameter, if any.
    pub fn next(&mut self) -> (r: Option<Parameter>)
        ensures
            final(self).text() == old(self).text(),
            r is None ==> old(self).remaining().len() == 0 && final(self).remaining().len() == 0,
            r matches Some(p) ==> {
                &&& old(self).remaining().len() > 0
                &&& p@ == old(self).remaining()[0]
                &&& final(self).remaining() == old(self).remaining().drop_first()
            },
    {
        loop
            invariant
                self.text() == old(self).text(),
                self.remaining() == old(self).remaining(),
            decreases self.braces.remaining().len(),
        {
            match self.braces.next() {
                None => {
                    return None;
                },
                Some(b) => {
                    match Parameter::try_from(&b) {
                        Ok(p) => {
                            return Some(p);
                        },
                        Err(_) => {},
                    }
                },
            }
        }
    }
}

/// The parameters that have a default, in order.
pub open spec fn with_default(ps: Seq<ParamModel>) -> Seq<ParamModel>
    decreases ps.len(),
{
    if ps.len() == 0 {
        seq![]
    } else if ps.last().default is Some {
        with_default(ps.drop_last()).push(ps.last())
    } else {
        with_default(ps.drop_last())
    }
}

/// The text from `last` on, with each parameter of `ps` that has a default
/// written `{` prefix, name and format, `}`; all else is kept as it is.
pub open spec fn rewrite_from(
    t: Seq<char>,
    ps: Seq<ParamModel>,
    last: int,
    prefix: Seq<char>,
) -> Seq<char>
    decreases ps.len(),
{
    if ps.len() == 0 {
        t.subrange(last, t.len() as int)
    } else if ps[0].default is Some {
        t.subrange(last, ps[0].char_start) + seq!['{'] + prefix + ps[0].name_format + seq!['}']
            + rewrite_from(t, ps.drop_first(), ps[0].char_end, prefix)
    } else {
        rewrite_from(t, ps.drop_first(), last, prefix)
    }
}

proof fn lemma_rewrite_step(
    t: Seq<char>,
    ps: Seq<ParamModel>,
    i: int,
    last: int,
    prefix: Seq<char>,
)
    requires
        0 <= i < ps.len(),
    ensures
        ps[i].default is Some ==> rewrite_from(t, ps.skip(i), last, prefix) == t.subrange(
            last,
            ps[i].char_start,
        ) + seq!['{'] + prefix + ps[i].name_format + seq!['}'] + rewrite_from(
            t,
            ps.skip(i + 1),
            ps[i].char_end,
            prefix,
        ),
        ps[i].default is None ==> rewrite_from(t, ps.skip(i), last, prefix) == rewrite_from(
            t,
            ps.skip(i + 1),
            last,
            prefix,
        ),
{
    let rest = ps.skip(i);
    assert(rest[0] == ps[i]);
    assert(rest.drop_first() =~= ps.skip(i + 1));
}

/// `t` with the defaults stripped and `prefix` put before each name that had
/// one.
pub open spec fn rewritten(t: Seq<char>, prefix: Seq<char>) -> Seq<char> {
    rewrite_from(t, parameters_of(t), 0, prefix)
}

/// The parameters of a text, with the text itself, for rewriting it.
pub struct ParameterReplacer {
    text: Vec<char>,
    parameters: Vec<Parameter>,
}

impl ParameterReplacer {
    #[verifier::type_invariant]
    closed spec fn inv(self) -> bool {
        &&& self.parameters@.len() == parameters_of(self.text@).len()
        &&& forall|k: int|
            0 <= k < self.parameters@.len() ==> (#[trigger] self.parameters@[k])@
                == parameters_of(self.text@)[k]
    }

    /// The text.
    pub closed spec fn text(self) -> Seq<char> {
        self.text@
    }

    pub fn new(input: &str) -> (r: Self)
        ensures
            r.text() == input@,
    {
        let mut it = ParameterIterator::new(input);
        let ghost all = parameters_of(input@);
        let mut parameters: Vec<Parameter> = Vec::new();
        loop
            invariant
                it.text() == input@,
                all == parameters_of(input@),
                parameters@.len() <= all.len(),
                it.remaining() == all.skip(parameters@.len() as int),
                forall|k: int| 0 <= k < parameters@.len() ==> (#[trigger] parameters@[k])@ == all[k],
            decreases it.remaining().len(),
        {
            match it.next() {
                None => {
                    proof {
                        assert(all.skip(parameters@.len() as int).len() == 0);
                    }
                    let text = chars_of(input);
                    return ParameterReplacer { text, parameters };
                },
                Some(p) => {
                    proof {
                        assert(all.skip(parameters@.len() as int).drop_first() =~= all.skip(
                            parameters@.len() as int + 1,
                        ));
                    }
                    parameters.push(p);
                },
            }
        }
    }

    /// All parameters, in order.
    pub fn parameters(&self) -> (r: &[Parameter])
        ensures
            r@.len() == parameters_of(self.text()).len(),
            forall|k: int| 0 <= k < r@.len() ==> (#[trigger] r@[k])@ == parameters_of(self.text())[k],
    {
        proof {
            use_type_invariant(self);
        }
        self.parameters.as_slice()
    }

    /// The parameters that have a default, in order.
    pub fn parameters_with_default(&self) -> (r: Vec<&Parameter>)
        ensures
            r@.len() == with_default(parameters_of(self.text())).len(),
            forall|k: int|
                0 <= k < r@.len() ==> (#[trigger] r@[k])@ == with_default(
                    parameters_of(self.text()),
                )[k],
    {
        proof {
            use_type_invariant(self);
        }
        let ghost ps = parameters_of(self.text());
        let mut r: Vec<&Parameter> = Vec::new();
        let mut i: usize = 0;
        while i < self.parameters.len()
            invariant
                i <= self.parameters@.len() == ps.len(),
                ps == parameters_of(self.text()),
                forall|k: int| 0 <= k < ps.len() ==> (#[trigger] self.parameters@[k])@ == ps[k],
                r@.len() == with_default(ps.take(i as int)).len(),
                forall|k: int|
                    0 <= k < r@.len() ==> (#[trigger] r@[k])@ == with_default(ps.take(i as int))[k],
            decreases self.parameters@.len() - i,
        {
            let p = &self.parameters[i];
            proof {
                assert(ps.take(i + 1).drop_last() =~= ps.take(i as int));
            }
            if p.default.is_some() {
                r.push(p);
            }
            i = i + 1;
        }
        proof {
            assert(ps.take(i as int) =~= ps);
        }
        r
    }

    /// The names of the parameters that have a default, in order.
    pub fn names_with_default(&self) -> (r: Vec<&str>)
        ensures
            r@.len() == with_default(parameters_of(self.text())).len(),
            forall|k: int|
                0 <= k < r@.len() ==> (#[trigger] r@[k])@ == with_default(
                    parameters_of(self.text()),
                )[k].name,
    {
        let ps = self.parameters_with_default();
        let mut r: Vec<&str> = Vec::new();
        let mut i: usize = 0;
        while i < ps.len()
            invariant
                i <= ps@.len(),
                r@.len() == i,
                forall|k: int| 0 <= k < i ==> (#[trigger] r@[k])@ == ps@[k]@.name,
            decreases ps@.len() - i,
        {
            r.push(ps[i].name());
            i = i + 1;
        }
        r
    }

    /// The text with each default removed and `prefix` put before the name of
    /// each parameter that had one; parameters without a default and all
    /// text outside them are kept as they are.
    #[verifier::rlimit(50)]
    pub fn replace(&self, prefix: &str) -> (r: String)
        ensures
            r@ == rewritten(self.text(), prefix@),
    {
        proof {
            use_type_invariant(self);
            lemma_parameters_ordered(self.text@);
        }
        let ghost t = self.text@;
        let ghost ps = parameters_of(t);
        let mut result = String::new();
        let mut last: usize = 0;
        let mut i: usize = 0;
        proof {
            assert(ps.skip(0) =~= ps);
        }
        while i < self.parameters.len()
            invariant
                t == self.text@,
                ps == parameters_of(t),
                i <= self.parameters@.len() == ps.len(),
                forall|k: int| 0 <= k < ps.len() ==> (#[trigger] self.parameters@[k])@ == ps[k],
                ordered_params(t, ps, 0),
                last <= t.len(),
                i < ps.len() ==> last <= ps[i as int].char_start,
                result@ + rewrite_from(t, ps.skip(i as int), last as int, prefix@) == rewritten(
                    t,
                    prefix@,
                ),
            decreases self.parameters@.len() - i,
        {
            let p = &self.parameters[i];
            proof {
                lemma_rewrite_step(t, ps, i as int, last as int, prefix@);
                if i + 1 < ps.len() {
                    assert(ps[i as int].char_end <= ps[i + 1].char_start);
                }
            }
            if p.default.is_some() {
                let ghost before = result@;
                let ghost piece = t.subrange(last as int, ps[i as int].char_start) + seq!['{'] + prefix@
                    + ps[i as int].name_format + seq!['}'];
                push_range(&mut result, &self.text, last, p.char_start);
                push_char(&mut result, '{');
                push_str(&mut result, prefix);
                push_str(&mut result, p.name_format.as_str());
                push_char(&mut result, '}');
                proof {
                    assert(result@ =~= before + piece);
                    let tail = rewrite_from(t, ps.skip(i + 1), p.char_end as int, prefix@);
                    assert(before + piece + tail =~= before + (piece + tail));
                }
                last = p.char_end;
            }
            i = i + 1;
        }
        push_range(&mut result, &self.text, last, self.text.len());
        proof {
            assert(ps.skip(i as int) =~= Seq::<ParamModel>::empty());
        }
        result
    }
}

/// The first reason why the placeholders at `sps` of `t` do not form a set
/// of parameters with distinct names, given the names `seen` before them:
/// `(true, content)` for an empty name, `(false, name)` for a repeated one.
pub open spec fn strict_problem(t: Seq<char>, sps: Seq<(int, int)>, seen: Seq<Seq<char>>) -> Option<
    (bool, Seq<char>),
>
    decreases sps.len(),
{
    if sps.len() == 0 {
        None
    } else {
        let c = content_of(t, sps[0]);
        if !parses(c) {
            Some((true, c))
        } else if seen.contains(name_of(c)) {
            Some((false, name_of(c)))
        } else {
            strict_problem(t, sps.drop_first(), seen.push(name_of(c)))
        }
    }
}

/// The parameters of a text, all well formed and with distinct names.
pub struct Parameters {
    parameters: Vec<Parameter>,
}

impl Parameters {
    /// The parameters, in order.
    pub closed spec fn models(self) -> Seq<ParamModel> {
        self.parameters@.map_values(|p: Parameter| p@)
    }

    /// Parses every placeholder of `input`; refuses the whole text on the first
    /// placeholder with an empty name or with a name already used.
    pub fn try_from(input: &str) -> (r: Result<Parameters, ParameterError>)
        ensures
            r is Ok <==> strict_problem(input@, spans(input@), seq![]) is None,
            r matches Ok(ps) ==> ps.models() == parameters_of(input@),
            r matches Err(e) ==> match e {
                ParameterError::EmptyName(c) => strict_problem(input@, spans(input@), seq![])
                    == Some((true, c@)),
                ParameterError::DuplicateName(n) => strict_problem(input@, spans(input@), seq![])
                    == Some((false, n@)),
            },
    {
        let mut braces = BraceIterator::new(input);
        let ghost t = input@;
        let ghost all = spans(t);
        let mut parameters: Vec<Parameter> = Vec::new();
        let mut names: Vec<String> = Vec::new();
        proof {
            assert(names@.map_values(|s: String| s@) =~= Seq::<Seq<char>>::empty());
            assert(parameters@.map_values(|p: Parameter| p@) =~= Seq::<ParamModel>::empty());
        }
        loop
            invariant
                t == input@,
                all == spans(t),
                braces.text() == t,
                names@.len() == parameters@.len(),
                forall|k: int| 0 <= k < names@.len() ==> (#[trigger] names@[k])@ == parameters@[k]@.name,
                strict_problem(t, all, seq![]) == strict_problem(
                    t,
                    braces.remaining(),
                    names@.map_values(|s: String| s@),
                ),
                parsed(t, all) == parameters@.map_values(|p: Parameter| p@) + parsed(
                    t,
                    braces.remaining(),
                ),
            decreases braces.remaining().len(),
        {
            let ghost here = braces.remaining();
            match braces.next() {
                None => {
                    proof {
                        assert(parameters@.map_values(|p: Parameter| p@) + parsed(t, here)
                            =~= parameters@.map_values(|p: Parameter| p@));
                    }
                    return Ok(Parameters { parameters });
                },
                Some(brace) => {
                    let p = match Parameter::try_from(&brace) {
                        Ok(p) => p,
                        Err(e) => {
                            return Err(e);
                        },
                    };
                    let ghost seen = names@.map_values(|s: String| s@);
                    proof {
                        assert(p@.name == name_of(content_of(t, here[0])));
                        assert(seen.contains(p@.name) ==> strict_problem(t, all, seq![]) == Some(
                            (false, p@.name),
                        ));
                    }
                    let mut j: usize = 0;
                    while j < names.len()
                        invariant
                            j <= names@.len(),
                            t == input@,
                            all == spans(t),
                            seen == names@.map_values(|s: String| s@),
                            forall|k: int| 0 <= k < j ==> (#[trigger] names@[k])@ != p@.name,
                            seen.contains(p@.name) ==> strict_problem(t, all, seq![]) == Some(
                                (false, p@.name),
                            ),
                        decreases names@.len() - j,
                    {
                        if names[j] == p.name {
                            proof {
                                assert(seen[j as int] == p@.name);
                                assert(seen.contains(p@.name));
                            }
                            return Err(ParameterError::DuplicateName(p.name.clone()));
                        }
                        j = j + 1;
                    }
                    proof {
                        assert(!seen.contains(p@.name));
                        assert(names@.push(p.name).map_values(|s: String| s@) =~= seen.push(
                            p@.name,
                        ));
                        assert(parameters@.push(p).map_values(|q: Parameter| q@) =~= parameters@.map_values(
                            |q: Parameter| q@,
                        ).push(p@));
                    }
                    names.push(p.name.clone());
                    parameters.push(p);
                },
            }
        }
    }

    /// The parameters, in order.
    pub fn parameters(&self) -> (r: &[Parameter])
        ensures
            r@.map_values(|p: Parameter| p@) == self.models(),
    {
        self.parameters.as_slice()
    }
}

/// A parameter written back as a placeholder: `{`, the name, `:` and the
/// format if any, `=` and the default if any, `}`.
pub open spec fn placeholder_text(p: ParamModel) -> Seq<char> {
    let with_format = match p.format {
        Some(f) => p.name + seq![':'] + f,
        None => p.name,
    };
    let with_default = match p.default {
        Some(d) => with_format + seq!['='] + d,
        None => with_format,
    };
    seq!['{'] + with_default + seq!['}']
}

proof fn lemma_find_at(s: Seq<char>, c: char, i: int, k: int)
    requires
        0 <= i <= k < s.len(),
        s[k] == c,
        forall|j: int| i <= j < k ==> s[j] != c,
    ensures
        crate::text::find_from(s, c, i) == Some(k),
    decreases k - i,
{
    if i < k {
        lemma_find_at(s, c, i + 1, k);
    }
}

/// Parsing the content `name=default`, for a non-empty name without `:` or
/// `=` and a non-empty default, and writing the parameter back gives the
/// placeholder `{name=default}` again.
pub proof fn lemma_parse_round_trip(name: Seq<char>, default: Seq<char>)
    requires
        name.len() > 0,
        !name.contains('='),
        !name.contains(':'),
        default.len() > 0,
    ensures
        ({
            let c = name + seq!['='] + default;
            &&& parses(c)
            &&& name_of(c) == name
            &&& format_of(c) is None
            &&& default_of(c) == Some(default)
            &&& placeholder_text(param_model(0, c.len() as int + 2, c, 0, 0)) == seq!['{'] + c
                + seq!['}']
        }),
{
    let c = name + seq!['='] + default;
    let n = name.len() as int;
    assert forall|j: int| 0 <= j < n implies c[j] != '=' by {
        assert(c[j] == name[j]);
        if c[j] == '=' {
            assert(name.contains('='));
        }
    }
    lemma_find_at(c, '=', 0, n);
    assert(c.take(n) =~= name);
    assert(c.skip(n + 1) =~= default);
    lemma_find_from_bounds(name, ':', 0);
    if find_first(name, ':') is Some {
        let j = find_first(name, ':')->0;
        assert(name.contains(':'));
    }
}

proof fn lemma_rewrite_keeps(t: Seq<char>, ps: Seq<ParamModel>, last: int, prefix: Seq<char>)
    requires
        forall|k: int| 0 <= k < ps.len() ==> (#[trigger] ps[k]).default is None,
    ensures
        rewrite_from(t, ps, last, prefix) == t.subrange(last, t.len() as int),
    decreases ps.len(),
{
    if ps.len() > 0 {
        assert(ps[0].default is None);
        assert forall|k: int| 0 <= k < ps.len() - 1 implies (#[trigger] ps.drop_first()[k]).default is None by {
            assert(ps.drop_first()[k] == ps[k + 1]);
        }
        lemma_rewrite_keeps(t, ps.drop_first(), last, prefix);
    }
}

/// Parameters without a default are never altered: a text none of whose
/// parameters has a default is rewritten to itself, whatever the prefix.
pub proof fn lemma_rewrite_without_defaults(t: Seq<char>, prefix: Seq<char>)
    requires
        forall|k: int|
            0 <= k < parameters_of(t).len() ==> (#[trigger] parameters_of(t)[k]).default is None,
    ensures
        rewritten(t, prefix) == t,
{
    lemma_rewrite_keeps(t, parameters_of(t), 0, prefix);
    assert(t.subrange(0, t.len() as int) =~= t);
}

proof fn lemma_problem_when_seen(t: Seq<char>, sps: Seq<(int, int)>, seen: Seq<Seq<char>>, j: int)
    requires
        0 <= j < sps.len(),
        parses(content_of(t, sps[j])),
        seen.contains(name_of(content_of(t, sps[j]))),
    ensures
        strict_problem(t, sps, seen) is Some,
    decreases sps.len(),
{
    if j > 0 {
        let c = content_of(t, sps[0]);
        if parses(c) && !seen.contains(name_of(c)) {
            let seen2 = seen.push(name_of(c));
            let w = choose|m: int| 0 <= m < seen.len() && seen[m] == name_of(content_of(t, sps[j]));
            assert(seen2[w] == seen[w]);
            assert(sps.drop_first()[j - 1] == sps[j]);
            lemma_problem_when_seen(t, sps.drop_first(), seen2, j - 1);
        }
    }
}

proof fn lemma_problem_on_repeat(
    t: Seq<char>,
    sps: Seq<(int, int)>,
    seen: Seq<Seq<char>>,
    i: int,
    j: int,
)
    requires
        0 <= i < j < sps.len(),
        parses(content_of(t, sps[i])),
        parses(content_of(t, sps[j])),
        name_of(content_of(t, sps[i])) == name_of(content_of(t, sps[j])),
    ensures
        strict_problem(t, sps, seen) is Some,
    decreases sps.len(),
{
    let c = content_of(t, sps[0]);
    if parses(c) && !seen.contains(name_of(c)) {
        let seen2 = seen.push(name_of(c));
        assert(sps.drop_first()[j - 1] == sps[j]);
        if i == 0 {
            assert(seen2[seen.len() as int] == name_of(c));
            lemma_problem_when_seen(t, sps.drop_first(), seen2, j - 1);
        } else {
            assert(sps.drop_first()[i - 1] == sps[i]);
            lemma_problem_on_repeat(t, sps.drop_first(), seen2, i - 1, j - 1);
        }
    }
}

/// Names must be unique across a batch: when two placeholders of `t` parse
/// to parameters with the same name, the batch is refused, though each
/// placeholder parses on its own.
pub proof fn lemma_duplicate_refused(t: Seq<char>, i: int, j: int)
    requires
        0 <= i < j < spans(t).len(),
        parses(content_of(t, spans(t)[i])),
        parses(content_of(t, spans(t)[j])),
        name_of(content_of(t, spans(t)[i])) == name_of(content_of(t, spans(t)[j])),
    ensures
        strict_problem(t, spans(t), seq![]) is Some,
{
    lemma_problem_on_repeat(t, spans(t), seq![], i, j);
}

/// A parameter's name never holds the delimiters `:` and `=`.
pub proof fn lemma_name_has_no_delimiters(c: Seq<char>)
    ensures
        !name_of(c).contains(':'),
        !name_of(c).contains('='),
{
    lemma_find_from_bounds(c, '=', 0);
    let nf = name_format_of(c);
    lemma_find_from_bounds(nf, ':', 0);
    let name = name_of(c);
    assert forall|j: int| 0 <= j < name.len() implies name[j] != ':' && name[j] != '=' by {
        assert(name[j] == nf[j]);
        assert(nf[j] == c[j]);
    }
}

} // verus!
