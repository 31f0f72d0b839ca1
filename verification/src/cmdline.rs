//! The kernel cmdline tokenizer.
//!
//! A cmdline is an ASCII string.  Tokens are maximal runs of bytes that
//! are separated by unquoted ASCII whitespace: a `"` toggles a quoted
//! region, and whitespace inside such a region does not end the token.
//! Within a token, the first `=` past position zero splits it into a key
//! and a value; the quote-stripping rules below then remove the quotes
//! of the forms `"k=v"` and `k="v"`.  A token without a key is yielded
//! as a bare value.

use vstd::prelude::*;
use vstd::string::*;

verus! {

broadcast use vstd::string::group_string_axioms;

/// ASCII whitespace, as the tokenizer understands it: space, tab, line
/// feed, form feed, carriage return.
pub open spec fn is_ws(c: char) -> bool {
    c == ' ' || c == '\t' || c == '\n' || c == '\x0c' || c == '\r'
}

/// The number of leading whitespace characters of `s`.
pub open spec fn ws_len(s: Seq<char>) -> int
    decreases s.len(),
{
    if s.len() == 0 || !is_ws(s[0]) {
        0
    } else {
        1 + ws_len(s.drop_first())
    }
}

/// How many characters the token scanner consumes from the front of
/// `s`, starting in quote state `quoted`: it stops at the first
/// unquoted whitespace character, or at the end of the input.
pub open spec fn scan_len(s: Seq<char>, quoted: bool) -> int
    decreases s.len(),
{
    if s.len() == 0 {
        0
    } else if is_ws(s[0]) && !quoted {
        0
    } else {
        1 + scan_len(s.drop_first(), if s[0] == '"' { !quoted } else { quoted })
    }
}

/// The index of the first `=` of `t`, or `t.len()` when there is none.
pub open spec fn first_eq_idx(t: Seq<char>) -> int
    decreases t.len(),
{
    if t.len() == 0 {
        0
    } else if t[0] == '=' {
        0
    } else {
        1 + first_eq_idx(t.drop_first())
    }
}

/// Where a token splits: at its first `=`, except that a token whose
/// first `=` leads it, or that has none at all, does not split and is
/// yielded whole as a bare value.
pub open spec fn eq_split(t: Seq<char>) -> int {
    let e = first_eq_idx(t);
    if e >= t.len() {
        0
    } else {
        e
    }
}

/// How one scanned token becomes a `(key, value)` pair.
pub open spec fn split_token(t: Seq<char>) -> (Option<Seq<char>>, Seq<char>) {
    let e = eq_split(t);
    let lhs0 = t.take(e);
    let rhs0 = t.skip(e);
    let stripped = lhs0.len() > 0 && lhs0[0] == '"';
    let lhs = if stripped {
        lhs0.drop_first()
    } else {
        lhs0
    };
    let rhs1 = if stripped && rhs0.len() > 0 && rhs0.last() == '"' {
        rhs0.drop_last()
    } else {
        rhs0
    };
    if lhs.len() == 0 {
        (None, rhs1)
    } else {
        let r2 = rhs1.drop_first();
        let r3 = if r2.len() > 0 && r2[0] == '"' {
            let r2b = r2.drop_first();
            if r2b.len() > 0 && r2b.last() == '"' {
                r2b.drop_last()
            } else {
                r2b
            }
        } else {
            r2
        };
        (Some(lhs), r3)
    }
}

/// The whole token stream of a cmdline.
pub open spec fn tokens(s: Seq<char>) -> Seq<(Option<Seq<char>>, Seq<char>)>
    decreases s.len(),
    via tokens_decreases
{
    let w = ws_len(s);
    if w >= s.len() {
        Seq::empty()
    } else {
        let rest = s.skip(w);
        let e = scan_len(rest, false);
        seq![split_token(rest.take(e))] + tokens(rest.skip(e))
    }
}

#[via_fn]
proof fn tokens_decreases(s: Seq<char>) {
    lemma_ws_len_bounds(s);
    let w = ws_len(s);
    if w < s.len() {
        let rest = s.skip(w);
        lemma_scan_len_bounds(rest, false);
        assert(rest[0] == s[w]);
        assert(scan_len(rest, false) >= 1);
    }
}

pub proof fn lemma_ws_len_bounds(s: Seq<char>)
    ensures
        0 <= ws_len(s) <= s.len(),
        forall|j: int| 0 <= j < ws_len(s) ==> is_ws(s[j]),
        ws_len(s) < s.len() ==> !is_ws(s[ws_len(s)]),
    decreases s.len(),
{
    if s.len() == 0 || !is_ws(s[0]) {
    } else {
        lemma_ws_len_bounds(s.drop_first());
        assert forall|j: int| 0 <= j < ws_len(s) implies is_ws(s[j]) by {
            if j > 0 {
                assert(s.drop_first()[j - 1] == s[j]);
            }
        }
        if ws_len(s) < s.len() {
            assert(s.drop_first()[ws_len(s) - 1] == s[ws_len(s)]);
        }
    }
}

pub proof fn lemma_scan_len_bounds(s: Seq<char>, q: bool)
    ensures
        0 <= scan_len(s, q) <= s.len(),
        s.len() > 0 && !(is_ws(s[0]) && !q) ==> scan_len(s, q) >= 1,
    decreases s.len(),
{
    if s.len() == 0 {
    } else if is_ws(s[0]) && !q {
    } else {
        lemma_scan_len_bounds(s.drop_first(), if s[0] == '"' {
            !q
        } else {
            q
        });
    }
}

/// Advancing over one whitespace character keeps the whitespace count
/// in step with the scan position.
proof fn lemma_ws_len_step(s: Seq<char>, i: int)
    requires
        0 <= i < s.len(),
        is_ws(s[i]),
    ensures
        ws_len(s.skip(i)) == 1 + ws_len(s.skip(i + 1)),
{
    assert(s.skip(i)[0] == s[i]);
    assert(s.skip(i).drop_first() =~= s.skip(i + 1));
}

/// Advancing over one non-terminating character keeps the scan length
/// in step with the scan position and quote state.
proof fn lemma_scan_len_step(s: Seq<char>, i: int, q: bool)
    requires
        0 <= i < s.len(),
        !(is_ws(s[i]) && !q),
    ensures
        scan_len(s.skip(i), q) == 1 + scan_len(s.skip(i + 1), if s[i] == '"' {
            !q
        } else {
            q
        }),
{
    assert(s.skip(i)[0] == s[i]);
    assert(s.skip(i).drop_first() =~= s.skip(i + 1));
}

proof fn lemma_first_eq_idx_bounds(t: Seq<char>)
    ensures
        0 <= first_eq_idx(t) <= t.len(),
        forall|j: int| 0 <= j < first_eq_idx(t) ==> t[j] != '=',
        first_eq_idx(t) < t.len() ==> t[first_eq_idx(t)] == '=',
    decreases t.len(),
{
    if t.len() == 0 || t[0] == '=' {
    } else {
        lemma_first_eq_idx_bounds(t.drop_first());
        assert forall|j: int| 0 <= j < first_eq_idx(t) implies t[j] != '=' by {
            if j > 0 {
                assert(t.drop_first()[j - 1] == t[j]);
            }
        }
        if first_eq_idx(t) < t.len() {
            assert(t.drop_first()[first_eq_idx(t) - 1] == t[first_eq_idx(t)]);
        }
    }
}

/// The found position of an `=` with none before it is the first.
proof fn lemma_first_eq_found(t: Seq<char>, j: int)
    requires
        0 <= j < t.len(),
        t[j] == '=',
        forall|l: int| 0 <= l < j ==> t[l] != '=',
    ensures
        first_eq_idx(t) == j,
    decreases j,
{
    if j > 0 {
        assert forall|l: int| 0 <= l < j - 1 implies t.drop_first()[l] != '=' by {
            assert(t.drop_first()[l] == t[l + 1]);
        }
        assert(t.drop_first()[j - 1] == t[j]);
        lemma_first_eq_found(t.drop_first(), j - 1);
    }
}

proof fn lemma_first_eq_none(t: Seq<char>)
    requires
        forall|l: int| 0 <= l < t.len() ==> t[l] != '=',
    ensures
        first_eq_idx(t) == t.len(),
    decreases t.len(),
{
    if t.len() > 0 {
        assert forall|l: int| 0 <= l < t.drop_first().len() implies t.drop_first()[l] != '=' by {
            assert(t.drop_first()[l] == t[l + 1]);
        }
        lemma_first_eq_none(t.drop_first());
    }
}

/// What the executable pair type states, seen as sequences.
pub open spec fn token_view(t: (Option<String>, String)) -> (Option<Seq<char>>, Seq<char>) {
    (
        match t.0 {
            Some(k) => Some(k@),
            None => None,
        },
        t.1@,
    )
}

/// An error of the cmdline reader.
#[derive(Debug, PartialEq, Eq, Structural)]
pub enum CmdLineError {
    /// The input held a non-ASCII character.
    InvalidData,
}

/// An ASCII kernel cmdline.
pub struct CmdLine {
    line: String,
}

impl View for CmdLine {
    type V = Seq<char>;

    closed spec fn view(&self) -> Seq<char> {
        self.line@
    }
}

impl CmdLine {
    /// The cmdline is well formed: it holds ASCII characters only.
    pub closed spec fn wf(&self) -> bool {
        self.line.is_ascii()
    }

    /// Accept an ASCII cmdline; any other input is invalid data.
    pub fn new(cmdline: String) -> (r: Result<CmdLine, CmdLineError>)
        ensures
            cmdline.is_ascii() ==> (r matches Ok(c) && c@ == cmdline@ && c.wf()),
            !cmdline.is_ascii() ==> (r matches Err(e) && e == CmdLineError::InvalidData),
    {
        if cmdline.is_ascii() {
            Ok(CmdLine { line: cmdline })
        } else {
            Err(CmdLineError::InvalidData)
        }
    }

    /// The token stream of this cmdline.
    pub fn args(&self) -> (r: Args<'_>)
        requires
            self.wf(),
        ensures
            r@ == self@,
            r.wf(),
    {
        Args { rest: self.line.as_str() }
    }
}

/// A cursor over the not yet consumed tail of a cmdline.
pub struct Args<'a> {
    rest: &'a str,
}

impl<'a> View for Args<'a> {
    type V = Seq<char>;

    closed spec fn view(&self) -> Seq<char> {
        self.rest@
    }
}

impl<'a> Args<'a> {
    /// The remaining input is ASCII.
    pub closed spec fn wf(&self) -> bool {
        is_ascii(self.rest)
    }

    /// Yield the next `(key, value)` pair, or `None` once only
    /// whitespace is left.
    #[verifier::rlimit(90)]
    pub fn next(&mut self) -> (r: Option<(Option<String>, String)>)
        requires
            old(self).wf(),
        ensures
            final(self).wf(),
            match r {
                None => tokens(old(self)@).len() == 0 && tokens(final(self)@).len() == 0,
                Some(t) => tokens(old(self)@).len() > 0 && token_view(t) == tokens(
                    old(self)@,
                )[0] && tokens(final(self)@) == tokens(old(self)@).drop_first(),
            },
    {
        let s = self.rest;
        let n = s.unicode_len();
        proof {
            assert(s@.skip(0) =~= s@);
        }

        // Skip the leading whitespace.
        let mut i: usize = 0;
        while i < n && is_space(s.get_char(i))
            invariant
                is_ascii(s),
                n == s@.len(),
                0 <= i <= n,
                ws_len(s@) == i + ws_len(s@.skip(i as int)),
            decreases n - i,
        {
            proof {
                lemma_ws_len_step(s@, i as int);
            }
            i = i + 1;
        }
        proof {
            if i < n {
                assert(s@.skip(i as int)[0] == s@[i as int]);
                assert(ws_len(s@.skip(i as int)) == 0);
            }
            assert(ws_len(s@) == i as int);
        }

        if i == n {
            self.rest = s.substring_ascii(n, n);
            return None;
        }

        // Scan the token, toggling the quote state and remembering the
        // first `=` past the token's first character.
        let ghost rest = s@.skip(i as int);
        let mut end: usize = i;
        let mut quoted: bool = false;
        let mut eq_found: bool = false;
        let mut eqr: usize = 0;
        while end < n && (quoted || !is_space(s.get_char(end)))
            invariant
                is_ascii(s),
                n == s@.len(),
                0 <= i <= end <= n,
                rest == s@.skip(i as int),
                scan_len(rest, false) == (end - i) + scan_len(s@.skip(end as int), quoted),
                !eq_found ==> eqr == 0 && (forall|j: int| i <= j < end ==> s@[j] != '='),
                eq_found ==> i + eqr < end && s@[i + eqr] == '=' && (forall|j: int|
                    i <= j < i + eqr ==> s@[j] != '='),
            decreases n - end,
        {
            let c = s.get_char(end);
            proof {
                lemma_scan_len_step(s@, end as int, quoted);
            }
            if c == '"' {
                quoted = !quoted;
            } else if c == '=' && !eq_found {
                eq_found = true;
                eqr = end - i;
            }
            end = end + 1;
        }
        proof {
            if end < n {
                assert(s@.skip(end as int)[0] == s@[end as int]);
            }
            assert(scan_len(s@.skip(end as int), quoted) == 0);
            assert(scan_len(rest, false) == end - i);
        }

        let ghost tok = s@.subrange(i as int, end as int);
        proof {
            assert(tok =~= rest.take((end - i) as int));
            // Relate the tracked `=` position to the token's split index.
            if eq_found {
                assert forall|j: int| 0 <= j < eqr as int implies tok[j] != '=' by {
                    assert(tok[j] == s@[i + j]);
                }
                assert(tok[eqr as int] == s@[i + eqr]);
                lemma_first_eq_found(tok, eqr as int);
                assert(eq_split(tok) == eqr as int);
            } else {
                assert forall|j: int| 0 <= j < tok.len() implies tok[j] != '=' by {
                    assert(tok[j] == s@[i + j]);
                }
                lemma_first_eq_none(tok);
                assert(eq_split(tok) == 0);
            }
        }

        // Split the token at the `=` and strip the quotes, as
        // `split_token` states.
        let mut lhs_lo: usize = i;
        let lhs_hi: usize = i + eqr;
        let mut rhs_lo: usize = i + eqr;
        let mut rhs_hi: usize = end;
        if lhs_hi > lhs_lo && s.get_char(lhs_lo) == '"' {
            lhs_lo = lhs_lo + 1;
            if rhs_hi > rhs_lo && s.get_char(rhs_hi - 1) == '"' {
                rhs_hi = rhs_hi - 1;
            }
        }
        let r: Option<(Option<String>, String)>;
        if lhs_lo == lhs_hi {
            let value = s.substring_ascii(rhs_lo, rhs_hi).to_owned();
            proof {
                assert(split_token(tok).0 is None);
                assert(value@ =~= split_token(tok).1);
            }
            r = Some((None, value));
        } else {
            rhs_lo = rhs_lo + 1;
            if rhs_hi > rhs_lo && s.get_char(rhs_lo) == '"' {
                rhs_lo = rhs_lo + 1;
                if rhs_hi > rhs_lo && s.get_char(rhs_hi - 1) == '"' {
                    rhs_hi = rhs_hi - 1;
                }
            }
            let key = s.substring_ascii(lhs_lo, lhs_hi).to_owned();
            let value = s.substring_ascii(rhs_lo, rhs_hi).to_owned();
            proof {
                assert(split_token(tok).0 matches Some(k) && k =~= key@);
                assert(value@ =~= split_token(tok).1);
            }
            r = Some((Some(key), value));
        }
        self.rest = s.substring_ascii(end, n);
        proof {
            assert(final(self)@ =~= rest.skip((end - i) as int));
            assert(tokens(old(self)@) == seq![split_token(tok)] + tokens(final(self)@));
            assert(tokens(old(self)@).drop_first() =~= tokens(final(self)@));
        }
        r
    }
}

/// The number of `"` characters in `s`.
pub open spec fn quote_count(s: Seq<char>) -> int
    decreases s.len(),
{
    if s.len() == 0 {
        0
    } else {
        (if s[0] == '"' {
            1int
        } else {
            0int
        }) + quote_count(s.drop_first())
    }
}

proof fn lemma_scan_quoted(s: Seq<char>, q: bool, j: int)
    requires
        0 <= j < scan_len(s, q),
        is_ws(s[j]),
    ensures
        (quote_count(s.take(j)) + if q {
            1int
        } else {
            0int
        }) % 2 == 1,
    decreases j,
{
    lemma_scan_len_bounds(s, q);
    if j == 0 {
        assert(s.take(0) =~= Seq::empty());
    } else {
        let q2 = if s[0] == '"' {
            !q
        } else {
            q
        };
        assert(s.drop_first()[j - 1] == s[j]);
        lemma_scan_quoted(s.drop_first(), q2, j - 1);
        assert(s.take(j).drop_first() =~= s.drop_first().take(j - 1));
        assert(s.take(j)[0] == s[0]);
    }
}

/// Quote balance: whitespace strictly inside a scanned token always lies
/// within a quoted region, so it never splits the token.
pub proof fn lemma_quote_balance(s: Seq<char>, j: int)
    requires
        0 <= j < scan_len(s, false),
        is_ws(s[j]),
    ensures
        quote_count(s.take(j)) % 2 == 1,
{
    lemma_scan_quoted(s, false, j);
}

/// The number of leading non-whitespace characters of `s`.
pub open spec fn nonws_len(s: Seq<char>) -> int
    decreases s.len(),
{
    if s.len() == 0 || is_ws(s[0]) {
        0
    } else {
        1 + nonws_len(s.drop_first())
    }
}

/// `s` split on runs of whitespace, empty pieces dropped.
pub open spec fn ws_split(s: Seq<char>) -> Seq<Seq<char>>
    decreases s.len(),
    via ws_split_decreases
{
    let w = ws_len(s);
    if w >= s.len() {
        Seq::empty()
    } else {
        let rest = s.skip(w);
        let e = nonws_len(rest);
        seq![rest.take(e)] + ws_split(rest.skip(e))
    }
}

#[via_fn]
proof fn ws_split_decreases(s: Seq<char>) {
    lemma_ws_len_bounds(s);
    let w = ws_len(s);
    if w < s.len() {
        let rest = s.skip(w);
        lemma_nonws_len_bounds(rest);
        assert(rest[0] == s[w]);
    }
}

pub proof fn lemma_nonws_len_bounds(s: Seq<char>)
    ensures
        0 <= nonws_len(s) <= s.len(),
        s.len() > 0 && !is_ws(s[0]) ==> nonws_len(s) >= 1,
    decreases s.len(),
{
    if s.len() == 0 || is_ws(s[0]) {
    } else {
        lemma_nonws_len_bounds(s.drop_first());
    }
}

/// Split a quoteless token at its first `=`: a leading or missing `=`
/// yields a bare value, any other first `=` separates key from value.
pub open spec fn split_first_eq(t: Seq<char>) -> (Option<Seq<char>>, Seq<char>) {
    let e = first_eq_idx(t);
    if e == 0 || e >= t.len() {
        (None, t)
    } else {
        (Some(t.take(e)), t.skip(e + 1))
    }
}

/// The number of `=` characters in `t`.
pub open spec fn eq_count(t: Seq<char>) -> int
    decreases t.len(),
{
    if t.len() == 0 {
        0
    } else {
        (if t[0] == '=' {
            1int
        } else {
            0int
        }) + eq_count(t.drop_first())
    }
}

/// Without quotes, the token scanner stops exactly at the next
/// whitespace character.
proof fn lemma_scan_no_quotes(t: Seq<char>)
    requires
        forall|i: int| 0 <= i < t.len() ==> t[i] != '"',
    ensures
        scan_len(t, false) == nonws_len(t),
    decreases t.len(),
{
    if t.len() == 0 || is_ws(t[0]) {
    } else {
        assert forall|i: int| 0 <= i < t.drop_first().len() implies t.drop_first()[i] != '"' by {
            assert(t.drop_first()[i] == t[i + 1]);
        }
        lemma_scan_no_quotes(t.drop_first());
    }
}

/// On a quoteless token with at most one `=`, the scanner's split
/// agrees with the plain first-`=` split.
proof fn lemma_split_token_plain(t: Seq<char>)
    requires
        forall|i: int| 0 <= i < t.len() ==> t[i] != '"',
        eq_count(t) <= 1,
    ensures
        split_token(t) == split_first_eq(t),
{
    lemma_first_eq_idx_bounds(t);
    let f = first_eq_idx(t);
    if f >= t.len() || f == 0 {
        // No `=` at all, or one leading the token: a bare value.
        assert(t.take(0) =~= Seq::empty());
        assert(t.skip(0) =~= t);
    } else {
        assert(t.take(f)[0] == t[0]);
        assert(t.skip(f).drop_first() =~= t.skip(f + 1));
        if t.skip(f + 1).len() > 0 {
            assert(t.skip(f + 1)[0] == t[f + 1]);
        }
    }
}

/// Tokenizer round trip on unquoted input: when the input holds no `"`
/// and no whitespace-separated word holds more than one `=`, the token
/// stream is exactly the whitespace split of the input, each word split
/// at its first `=`.
pub proof fn lemma_tokens_unquoted(s: Seq<char>)
    requires
        forall|i: int| 0 <= i < s.len() ==> s[i] != '"',
        forall|k: int| 0 <= k < ws_split(s).len() ==> eq_count(#[trigger] ws_split(s)[k]) <= 1,
    ensures
        tokens(s) == ws_split(s).map_values(|t: Seq<char>| split_first_eq(t)),
    decreases s.len(),
{
    lemma_ws_len_bounds(s);
    let w = ws_len(s);
    if w >= s.len() {
        assert(tokens(s) =~= ws_split(s).map_values(|t: Seq<char>| split_first_eq(t)));
    } else {
        let rest = s.skip(w);
        assert forall|i: int| 0 <= i < rest.len() implies rest[i] != '"' by {
            assert(rest[i] == s[w + i]);
        }
        lemma_scan_no_quotes(rest);
        lemma_nonws_len_bounds(rest);
        let e = nonws_len(rest);
        let tok = rest.take(e);
        assert(ws_split(s)[0] == tok);
        assert forall|i: int| 0 <= i < tok.len() implies tok[i] != '"' by {
            assert(tok[i] == rest[i]);
        }
        lemma_split_token_plain(tok);
        let tail = rest.skip(e);
        assert forall|i: int| 0 <= i < tail.len() implies tail[i] != '"' by {
            assert(tail[i] == rest[e + i]);
        }
        assert forall|k: int| 0 <= k < ws_split(tail).len() implies eq_count(
            #[trigger] ws_split(tail)[k],
        ) <= 1 by {
            assert(ws_split(s)[k + 1] == ws_split(tail)[k]);
        }
        lemma_ws_len_bounds(tail);
        assert(rest[0] == s[w]);
        lemma_tokens_unquoted(tail);
        assert(tokens(s) =~= ws_split(s).map_values(|t: Seq<char>| split_first_eq(t)));
    }
}

/// Whether `c` is tokenizer whitespace.
fn is_space(c: char) -> (r: bool)
    ensures
        r == is_ws(c),
{
    c == ' ' || c == '\t' || c == '\n' || c == '\x0c' || c == '\r'
}

} // verus!
