//! The brace scanner: locates `{...}` placeholders in text.
//!
//! The policy is flat with escapes: a `{` opens a placeholder, a second `{`
//! right after it cancels it (`{{` is literal), whitespace abandons an open
//! placeholder, a later `{` replaces it, and the first `}` closes it. Spans
//! never nest, and unmatched braces are ignored.
use vstd::prelude::*;
use crate::text::{is_space, is_whitespace};

verus! {

/// Spans found from position `i` on, when the placeholder opened at `open`
/// (if any) is still pending. Positions count characters; a span `(s, e)`
/// covers `t[s..e]`, from its `{` to just past its `}`.
pub open spec fn scan_from(t: Seq<char>, i: int, open: Option<int>) -> Seq<(int, int)>
    decreases t.len() - i,
{
    if i < 0 || i >= t.len() {
        seq![]
    } else {
        let c = t[i];
        if c == '{' {
            scan_from(t, i + 1, if open == Some(i - 1) { None } else { Some(i) })
        } else if c == '}' {
            match open {
                Some(s) => seq![(s, i + 1)] + scan_from(t, i + 1, None),
                None => scan_from(t, i + 1, None),
            }
        } else if is_space(c) {
            scan_from(t, i + 1, None)
        } else {
            scan_from(t, i + 1, open)
        }
    }
}

/// All placeholder spans of `t`, left to right.
pub open spec fn spans(t: Seq<char>) -> Seq<(int, int)> {
    scan_from(t, 0, None)
}

/// A character that may stand inside a placeholder.
pub open spec fn is_inner(c: char) -> bool {
    c != '{' && c != '}' && !is_space(c)
}

/// `(s, e)` is a placeholder of `t`: `{`, then characters other than braces
/// and whitespace, then `}`.
pub open spec fn well_formed_span(t: Seq<char>, sp: (int, int)) -> bool {
    &&& 0 <= sp.0
    &&& sp.0 + 1 < sp.1 <= t.len()
    &&& t[sp.0] == '{'
    &&& t[sp.1 - 1] == '}'
    &&& forall|j: int| sp.0 < j < sp.1 - 1 ==> is_inner(#[trigger] t[j])
}

/// Every span is well formed, starts at or after `lb`, and ends before the
/// next one starts.
pub open spec fn ordered_spans(t: Seq<char>, sps: Seq<(int, int)>, lb: int) -> bool {
    &&& forall|k: int| 0 <= k < sps.len() ==> well_formed_span(t, #[trigger] sps[k])
    &&& forall|k: int| 0 <= k < sps.len() ==> lb <= (#[trigger] sps[k]).0
    &&& forall|k: int| 0 <= k < sps.len() - 1 ==> (#[trigger] sps[k]).1 <= sps[k + 1].0
}

/// What a pending placeholder opened at `open` has seen before position `i`.
pub open spec fn pending_ok(t: Seq<char>, i: int, open: Option<int>) -> bool {
    match open {
        Some(s) => 0 <= s < i <= t.len() && t[s] == '{' && forall|j: int|
            s < j < i ==> is_inner(#[trigger] t[j]),
        None => true,
    }
}

pub open spec fn lower_bound(i: int, open: Option<int>) -> int {
    match open {
        Some(s) => s,
        None => i,
    }
}

pub proof fn lemma_scan_from_ordered(t: Seq<char>, i: int, open: Option<int>)
    requires
        0 <= i <= t.len(),
        pending_ok(t, i, open),
    ensures
        ordered_spans(t, scan_from(t, i, open), lower_bound(i, open)),
        forall|k: int|
            0 <= k < scan_from(t, i, open).len() ==> i < (#[trigger] scan_from(t, i, open)[k]).1,
    decreases t.len() - i,
{
    if i < t.len() {
        let c = t[i];
        if c == '{' {
            let o = if open == Some(i - 1) { None } else { Some(i) };
            lemma_scan_from_ordered(t, i + 1, o);
        } else if c == '}' {
            lemma_scan_from_ordered(t, i + 1, None);
            match open {
                Some(s) => {
                    let rest = scan_from(t, i + 1, None);
                    let all = scan_from(t, i, open);
                    assert(all == seq![(s, i + 1)] + rest);
                    assert forall|k: int| 0 <= k < all.len() implies well_formed_span(
                        t,
                        #[trigger] all[k],
                    ) by {
                        if k > 0 {
                            assert(all[k] == rest[k - 1]);
                        }
                    }
                    assert forall|k: int| 0 <= k < all.len() - 1 implies (#[trigger] all[k]).1
                        <= all[k + 1].0 by {
                        assert(all[k + 1] == rest[k]);
                        if k > 0 {
                            assert(all[k] == rest[k - 1]);
                        }
                    }
                    assert forall|k: int| 0 <= k < all.len() implies lower_bound(i, open) <= (
                    #[trigger] all[k]).0 && i < all[k].1 by {
                        if k > 0 {
                            assert(all[k] == rest[k - 1]);
                        }
                    }
                },
                None => {},
            }
        } else if is_space(c) {
            lemma_scan_from_ordered(t, i + 1, None);
        } else {
            lemma_scan_from_ordered(t, i + 1, open);
        }
    }
}

/// The first span found from position `from` on, starting with nothing
/// pending.
pub(crate) fn next_brace(t: &Vec<char>, from: usize) -> (r: Option<(usize, usize)>)
    requires
        from <= t@.len(),
    ensures
        r is None <==> scan_from(t@, from as int, None).len() == 0,
        r matches Some(sp) ==> {
            &&& scan_from(t@, from as int, None) == seq![(sp.0 as int, sp.1 as int)] + scan_from(
                t@,
                sp.1 as int,
                None,
            )
            &&& from < sp.1 <= t@.len()
        },
{
    let mut open: Option<usize> = None;
    let mut i: usize = from;
    while i < t.len()
        invariant
            from <= i <= t@.len(),
            scan_from(t@, i as int, match open {
                Some(s) => Some(s as int),
                None => None,
            }) == scan_from(t@, from as int, None),
            open matches Some(s) ==> from <= s < i,
        decreases t@.len() - i,
    {
        let c = t[i];
        if c == '{' {
            let doubled = match open {
                Some(s) => s + 1 == i,
                None => false,
            };
            open = if doubled { None } else { Some(i) };
        } else if c == '}' {
            match open {
                Some(s) => {
                    return Some((s, i + 1));
                },
                None => {},
            }
        } else if is_whitespace(c) {
            open = None;
        }
        i = i + 1;
    }
    None
}

/// All placeholder spans of `t`, as `(start, end)` character positions.
pub fn scan_chars(t: &Vec<char>) -> (r: Vec<(usize, usize)>)
    ensures
        r@.len() == spans(t@).len(),
        forall|k: int|
            0 <= k < r@.len() ==> (#[trigger] r@[k]).0 as int == spans(t@)[k].0 && r@[k].1 as int
                == spans(t@)[k].1,
{
    let mut r: Vec<(usize, usize)> = Vec::new();
    let mut pos: usize = 0;
    loop
        invariant
            pos <= t@.len(),
            r@.len() + scan_from(t@, pos as int, None).len() == spans(t@).len(),
            forall|k: int|
                0 <= k < r@.len() ==> (#[trigger] r@[k]).0 as int == spans(t@)[k].0 && r@[k].1 as int
                    == spans(t@)[k].1,
            forall|k: int|
                0 <= k < scan_from(t@, pos as int, None).len() ==> #[trigger] scan_from(
                    t@,
                    pos as int,
                    None,
                )[k] == spans(t@)[r@.len() + k],
        decreases t@.len() - pos,
    {
        match next_brace(t, pos) {
            None => {
                return r;
            },
            Some(sp) => {
                let ghost rest = scan_from(t@, sp.1 as int, None);
                let ghost here = scan_from(t@, pos as int, None);
                assert(here[0] == spans(t@)[r@.len() as int]);
                assert forall|k: int| 0 <= k < rest.len() implies #[trigger] rest[k] == spans(
                    t@,
                )[r@.len() + 1 + k] by {
                    assert(rest[k] == here[k + 1]);
                }
                r.push(sp);
                pos = sp.1;
            },
        }
    }
}

proof fn lemma_restart_from(t: Seq<char>, i: int, open: Option<int>, k: int)
    requires
        0 <= i <= t.len(),
        0 <= k < scan_from(t, i, open).len(),
    ensures
        scan_from(t, scan_from(t, i, open)[k].1, None) == scan_from(t, i, open).skip(k + 1),
    decreases t.len() - i,
{
    let all = scan_from(t, i, open);
    let c = t[i];
    if c == '{' {
        lemma_restart_from(t, i + 1, if open == Some(i - 1) { None } else { Some(i) }, k);
    } else if c == '}' {
        let rest = scan_from(t, i + 1, None);
        match open {
            Some(s) => {
                if k == 0 {
                    assert(all.skip(1) =~= rest);
                } else {
                    assert(all[k] == rest[k - 1]);
                    lemma_restart_from(t, i + 1, None, k - 1);
                    assert(all.skip(k + 1) =~= rest.skip(k));
                }
            },
            None => {
                lemma_restart_from(t, i + 1, None, k);
            },
        }
    } else if is_space(c) {
        lemma_restart_from(t, i + 1, None, k);
    } else {
        lemma_restart_from(t, i + 1, open, k);
    }
}

/// Scanning is restartable: a fresh scan begun just past any span that a
/// scan found yields exactly the spans that followed it.
pub proof fn lemma_scan_restart(t: Seq<char>, k: int)
    requires
        0 <= k < spans(t).len(),
    ensures
        scan_from(t, spans(t)[k].1, None) == spans(t).skip(k + 1),
{
    lemma_restart_from(t, 0, None, k);
}

proof fn lemma_pending_closes(u: Seq<char>, j: int)
    requires
        1 <= j < u.len(),
        u[u.len() - 1] == '}',
        forall|m: int| 0 < m < u.len() - 1 ==> is_inner(#[trigger] u[m]),
    ensures
        scan_from(u, j, Some(0)) == seq![(0int, u.len() as int)],
    decreases u.len() - j,
{
    if j < u.len() - 1 {
        assert(is_inner(u[j]));
        lemma_pending_closes(u, j + 1);
    } else {
        assert(scan_from(u, j + 1, None) =~= Seq::<(int, int)>::empty());
        assert(seq![(0int, u.len() as int)] + Seq::<(int, int)>::empty() =~= seq![
            (0int, u.len() as int),
        ]);
    }
}

/// Scanning is idempotent: the text of any span that a scan found, scanned
/// again, yields exactly one span, which covers all of it.
pub proof fn lemma_scan_idempotent(t: Seq<char>, k: int)
    requires
        0 <= k < spans(t).len(),
    ensures
        spans(t.subrange(spans(t)[k].0, spans(t)[k].1)) == seq![
            (0int, spans(t)[k].1 - spans(t)[k].0),
        ],
{
    lemma_scan_from_ordered(t, 0, None);
    let sp = spans(t)[k];
    assert(well_formed_span(t, sp));
    let u = t.subrange(sp.0, sp.1);
    assert forall|m: int| 0 < m < u.len() - 1 implies is_inner(#[trigger] u[m]) by {
        assert(u[m] == t[sp.0 + m]);
    }
    lemma_pending_closes(u, 1);
}

proof fn lemma_nothing_pending(u: Seq<char>, j: int)
    requires
        2 <= j <= u.len(),
        forall|m: int| 2 <= m < u.len() ==> (#[trigger] u[m]) != '{' && !is_space(u[m]),
    ensures
        scan_from(u, j, None) == Seq::<(int, int)>::empty(),
    decreases u.len() - j,
{
    if j < u.len() {
        lemma_nothing_pending(u, j + 1);
    }
}

/// A doubled brace escapes: `{{x}}`, where `x` holds no brace and no
/// whitespace, yields no span.
pub proof fn lemma_escaped_braces(x: Seq<char>)
    requires
        forall|m: int| 0 <= m < x.len() ==> is_inner(#[trigger] x[m]),
    ensures
        spans(seq!['{', '{'] + x + seq!['}', '}']).len() == 0,
{
    let u = seq!['{', '{'] + x + seq!['}', '}'];
    assert forall|m: int| 2 <= m < u.len() implies (#[trigger] u[m]) != '{' && !is_space(u[m]) by {
        if m < x.len() + 2 {
            assert(u[m] == x[m - 2]);
        }
    }
    lemma_nothing_pending(u, 2);
    assert(u[0] == '{' && u[1] == '{');
    assert(scan_from(u, 1, Some(0)) == scan_from(u, 2, None));
}

/// The spans of any text are placeholders, in order, and never overlap or
/// nest.
pub proof fn lemma_spans_ordered(t: Seq<char>)
    ensures
        ordered_spans(t, spans(t), 0),
{
    lemma_scan_from_ordered(t, 0, None);
}

} // verus!
