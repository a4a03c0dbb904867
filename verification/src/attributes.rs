//! Reading the decorator attributes a derive is given.
//!
//! Each attribute arrives as the text of its token list (`selector = "x",
//! negated = true`); a key's value is found by searching that text for the
//! key followed by `=`, and a key left out takes the attribute's default.
//! Field types are walked to find the nested types whose decorators a
//! derived type includes.

use vstd::prelude::*;
use crate::jsondata::strs;
use crate::text::{
    chars_of, concat, is_space_char, lemma_split_commas_len, lemma_split_commas_prefix, parse_int,
    parse_unsigned, same_text, slice_chars, split_commas, string_of, trim, trim_bounds, IntError,
};

verus! {

// ---------------------------------------------------------------------------
// Searching text
// ---------------------------------------------------------------------------

/// Whether `p` occurs in `s` at index `i`.
pub open spec fn occurs_at(s: Seq<char>, p: Seq<char>, i: int) -> bool {
    0 <= i && i + p.len() <= s.len() && s.subrange(i, i + p.len()) == p
}

/// Whether `i` is the first index at which `p` occurs in `s`.
pub open spec fn first_at(s: Seq<char>, p: Seq<char>, i: int) -> bool {
    occurs_at(s, p, i) && forall|j: int| 0 <= j < i ==> !occurs_at(s, p, j)
}

/// The first index at which `p` occurs in `s` (`str::find`).
pub open spec fn find_text(s: Seq<char>, p: Seq<char>) -> Option<int> {
    if exists|i: int| first_at(s, p, i) {
        Some(choose|i: int| first_at(s, p, i))
    } else {
        None
    }
}

proof fn lemma_first_at_unique(s: Seq<char>, p: Seq<char>, i: int, j: int)
    requires
        first_at(s, p, i),
        first_at(s, p, j),
    ensures
        i == j,
{
}

fn occurs_here(s: &Vec<char>, p: &Vec<char>, i: usize) -> (r: bool)
    requires
        i + p@.len() <= s@.len(),
    ensures
        r == occurs_at(s@, p@, i as int),
{
    let n = s.len();
    let mut j: usize = 0;
    while j < p.len()
        invariant
            j <= p@.len(),
            n == s@.len(),
            i + p@.len() <= s@.len(),
            forall|k: int| 0 <= k < j ==> s@[i + k] == p@[k],
        decreases p.len() - j,
    {
        if s[i + j] != p[j] {
            assert(s@.subrange(i as int, i + p@.len())[j as int] != p@[j as int]);
            return false;
        }
        j = j + 1;
    }
    assert(s@.subrange(i as int, i + p@.len()) =~= p@);
    true
}

/// The first index at which `p` occurs in `s`.
pub fn find_chars(s: &Vec<char>, p: &Vec<char>) -> (r: Option<usize>)
    ensures
        match find_text(s@, p@) {
            Some(i) => r == Some(i as usize) && occurs_at(s@, p@, i),
            None => r is None,
        },
{
    if p.len() > s.len() {
        assert forall|i: int| !#[trigger] occurs_at(s@, p@, i) by {}
        return None;
    }
    let last = s.len() - p.len();
    let mut i: usize = 0;
    loop
        invariant
            p@.len() <= s@.len(),
            last == s@.len() - p@.len(),
            i <= last,
            forall|j: int| 0 <= j < i ==> !#[trigger] occurs_at(s@, p@, j),
        decreases last - i,
    {
        if occurs_here(s, p, i) {
            assert(first_at(s@, p@, i as int));
            proof {
                let c = choose|c: int| first_at(s@, p@, c);
                lemma_first_at_unique(s@, p@, c, i as int);
            }
            return Some(i);
        }
        if i == last {
            assert forall|j: int| !#[trigger] occurs_at(s@, p@, j) by {
                if 0 <= j < i {
                }
            }
            return None;
        }
        i = i + 1;
    }
}

/// The characters of `s` from index `i` on.
fn tail_chars(s: &Vec<char>, i: usize) -> (r: Vec<char>)
    requires
        i <= s@.len(),
    ensures
        r@ == s@.skip(i as int),
{
    let r = slice_chars(s, i, s.len());
    assert(s@.subrange(i as int, s@.len() as int) =~= s@.skip(i as int));
    r
}


// ---------------------------------------------------------------------------
// Whitespace
// ---------------------------------------------------------------------------

/// `s` with each newline, carriage return and tab replaced by a space.
pub open spec fn normalized(s: Seq<char>) -> Seq<char> {
    s.map_values(|c: char| if c == '\n' || c == '\r' || c == '\t' { ' ' } else { c })
}

/// Replaces newlines, carriage returns and tabs with spaces, so that the
/// key searches below see `key = ` however the token text was wrapped.
pub fn normalize_whitespace(tokens: &str) -> (r: String)
    ensures
        r@ == normalized(tokens@),
{
    let cs = chars_of(tokens);
    let mut out: Vec<char> = Vec::new();
    let mut i: usize = 0;
    while i < cs.len()
        invariant
            i <= cs@.len(),
            cs@ == tokens@,
            out@ == normalized(cs@.take(i as int)),
        decreases cs.len() - i,
    {
        let c = cs[i];
        let d = if c == '\n' || c == '\r' || c == '\t' { ' ' } else { c };
        out.push(d);
        assert(normalized(cs@.take(i + 1)) =~= normalized(cs@.take(i as int)).push(d));
        i = i + 1;
    }
    assert(cs@.take(cs@.len() as int) =~= cs@);
    string_of(out.as_slice())
}

// ---------------------------------------------------------------------------
// String values: `key = "value"`
// ---------------------------------------------------------------------------

/// The text between the first `pattern` and the next `"` after it.
pub open spec fn quoted_after(tokens: Seq<char>, pattern: Seq<char>) -> Option<Seq<char>> {
    match find_text(tokens, pattern) {
        None => None,
        Some(st) => {
            let rest = tokens.skip(st + pattern.len());
            match find_text(rest, seq!['"']) {
                Some(e) => Some(rest.take(e)),
                None => None,
            }
        },
    }
}

/// The string value of `key`: after `key = "`, `key="`, `key ="` or
/// `key= "`, tried in that order, up to the closing quote.
pub open spec fn string_value(tokens: Seq<char>, key: Seq<char>) -> Option<Seq<char>> {
    let a = quoted_after(tokens, key + " = \""@);
    let b = quoted_after(tokens, key + "=\""@);
    let c = quoted_after(tokens, key + " =\""@);
    let d = quoted_after(tokens, key + "= \""@);
    if a is Some {
        a
    } else if b is Some {
        b
    } else if c is Some {
        c
    } else {
        d
    }
}

fn quoted_after_exec(t: &Vec<char>, pattern: &str) -> (r: Option<Vec<char>>)
    ensures
        match quoted_after(t@, pattern@) {
            Some(v) => r matches Some(x) && x@ == v,
            None => r is None,
        },
{
    let p = chars_of(pattern);
    match find_chars(t, &p) {
        None => None,
        Some(st) => {
            let total = t.len();
            assert(st + p@.len() <= total);
            let rest = tail_chars(t, st + p.len());
            let mut q: Vec<char> = Vec::new();
            q.push('"');
            assert(q@ =~= seq!['"']);
            match find_chars(&rest, &q) {
                Some(e) => {
                    let v = slice_chars(&rest, 0, e);
                    assert(rest@.subrange(0, e as int) =~= rest@.take(e as int));
                    Some(v)
                },
                None => None,
            }
        },
    }
}

/// The string value of `key` in the attribute text `tokens`, if given.
pub fn extract_string_from_tokens(tokens: &str, key: &str) -> (r: Option<String>)
    ensures
        match string_value(tokens@, key@) {
            Some(v) => r matches Some(x) && x@ == v,
            None => r is None,
        },
{
    let t = chars_of(tokens);
    let pa = concat(key, " = \"");
    if let Some(v) = quoted_after_exec(&t, pa.as_str()) {
        return Some(string_of(v.as_slice()));
    }
    let pb = concat(key, "=\"");
    if let Some(v) = quoted_after_exec(&t, pb.as_str()) {
        return Some(string_of(v.as_slice()));
    }
    let pc = concat(key, " =\"");
    if let Some(v) = quoted_after_exec(&t, pc.as_str()) {
        return Some(string_of(v.as_slice()));
    }
    let pd = concat(key, "= \"");
    match quoted_after_exec(&t, pd.as_str()) {
        Some(v) => Some(string_of(v.as_slice())),
        None => None,
    }
}

// ---------------------------------------------------------------------------
// Bare values: `key = value`
// ---------------------------------------------------------------------------

/// Whether `c` ends a bare value: a comma, a space or a closing parenthesis.
pub open spec fn is_delim(c: char) -> bool {
    c == ',' || c == ' ' || c == ')'
}

/// The index of the first delimiter in `s`, or its length.
pub open spec fn delim_end(s: Seq<char>) -> int
    decreases s.len(),
{
    if s.len() == 0 {
        0
    } else if is_delim(s[0]) {
        0
    } else {
        1 + delim_end(s.drop_first())
    }
}

proof fn lemma_delim_end(s: Seq<char>, i: int)
    requires
        0 <= i <= s.len(),
        forall|j: int| 0 <= j < i ==> !is_delim(#[trigger] s[j]),
        i == s.len() || is_delim(s[i]),
    ensures
        delim_end(s) == i,
    decreases i,
{
    if i > 0 {
        assert forall|j: int| 0 <= j < i - 1 implies !is_delim(#[trigger] s.drop_first()[j]) by {
            assert(s.drop_first()[j] == s[j + 1]);
        }
        lemma_delim_end(s.drop_first(), i - 1);
    }
}

/// The trimmed text after the first `key = `, up to the next delimiter.
pub open spec fn value_text(tokens: Seq<char>, key: Seq<char>) -> Option<Seq<char>> {
    let p = key + " = "@;
    match find_text(tokens, p) {
        None => None,
        Some(st) => {
            let rest = tokens.skip(st + p.len());
            Some(trim(rest.take(delim_end(rest))))
        },
    }
}

/// The `u32` value of `key`, if given and a `u32`.
pub open spec fn number_value(tokens: Seq<char>, key: Seq<char>) -> Option<u32> {
    match value_text(tokens, key) {
        Some(t) => match parse_int(t, false, 0, u32::MAX as int) {
            Ok(v) => Some(v as u32),
            Err(_) => None,
        },
        None => None,
    }
}

/// The `bool` value of `key`, if given and `true` or `false`.
pub open spec fn bool_value(tokens: Seq<char>, key: Seq<char>) -> Option<bool> {
    match value_text(tokens, key) {
        Some(t) => if t == "true"@ {
            Some(true)
        } else if t == "false"@ {
            Some(false)
        } else {
            None
        },
        None => None,
    }
}

/// The trimmed text of the bare value of `key`: what follows the first
/// `key = ` up to the next comma, space or closing parenthesis.
pub fn extract_value_text(tokens: &str, key: &str) -> (r: Option<String>)
    ensures
        match value_text(tokens@, key@) {
            Some(v) => r matches Some(x) && x@ == v,
            None => r is None,
        },
{
    let t = chars_of(tokens);
    let pat = concat(key, " = ");
    let p = chars_of(pat.as_str());
    match find_chars(&t, &p) {
        None => None,
        Some(st) => {
            let total = t.len();
            assert(st + p@.len() <= total);
            let rest = tail_chars(&t, st + p.len());
            let mut e: usize = 0;
            while e < rest.len() && !(rest[e] == ',' || rest[e] == ' ' || rest[e] == ')')
                invariant
                    e <= rest@.len(),
                    forall|j: int| 0 <= j < e ==> !is_delim(#[trigger] rest@[j]),
                decreases rest.len() - e,
            {
                e = e + 1;
            }
            proof {
                lemma_delim_end(rest@, e as int);
            }
            let (a, b) = trim_bounds(&rest, 0, e);
            assert(rest@.subrange(0, e as int) =~= rest@.take(e as int));
            let v = slice_chars(&rest, a, b);
            Some(string_of(v.as_slice()))
        },
    }
}

/// The `u32` value of `key` in the attribute text `tokens`, if given.
pub fn extract_number_from_tokens(tokens: &str, key: &str) -> (r: Option<u32>)
    ensures
        r == number_value(tokens@, key@),
{
    match extract_value_text(tokens, key) {
        Some(t) => {
            let cs = chars_of(t.as_str());
            match parse_unsigned(cs.as_slice(), u32::MAX as u128) {
                Ok(v) => Some(v as u32),
                Err(_) => None,
            }
        },
        None => None,
    }
}

/// The `bool` value of `key` in the attribute text `tokens`, if given.
pub fn extract_bool_from_tokens(tokens: &str, key: &str) -> (r: Option<bool>)
    ensures
        r == bool_value(tokens@, key@),
{
    match extract_value_text(tokens, key) {
        Some(t) => {
            if same_text(t.as_str(), "true") {
                Some(true)
            } else if same_text(t.as_str(), "false") {
                Some(false)
            } else {
                None
            }
        },
        None => None,
    }
}

// ---------------------------------------------------------------------------
// Array values: `key = ["a", "b"]`
// ---------------------------------------------------------------------------

/// `s` without leading double quotes.
pub open spec fn unquote_start(s: Seq<char>) -> Seq<char>
    decreases s.len(),
{
    if s.len() > 0 && s[0] == '"' {
        unquote_start(s.drop_first())
    } else {
        s
    }
}

/// `s` without trailing double quotes.
pub open spec fn unquote_end(s: Seq<char>) -> Seq<char>
    decreases s.len(),
{
    if s.len() > 0 && s.last() == '"' {
        unquote_end(s.drop_last())
    } else {
        s
    }
}

/// An array item: a piece trimmed, then stripped of quotes at both ends.
pub open spec fn array_item(p: Seq<char>) -> Seq<char> {
    unquote_end(unquote_start(trim(p)))
}

/// The non-empty items of the pieces, in order.
pub open spec fn array_items(ps: Seq<Seq<char>>) -> Seq<Seq<char>>
    decreases ps.len(),
{
    if ps.len() == 0 {
        Seq::empty()
    } else {
        let prev = array_items(ps.drop_last());
        let x = array_item(ps.last());
        if x.len() > 0 {
            prev.push(x)
        } else {
            prev
        }
    }
}

/// The items between the first `pattern` and the next `]` after it.
pub open spec fn bracketed_after(tokens: Seq<char>, pattern: Seq<char>) -> Option<Seq<Seq<char>>> {
    match find_text(tokens, pattern) {
        None => None,
        Some(st) => {
            let rest = tokens.skip(st + pattern.len());
            match find_text(rest, seq![']']) {
                Some(e) => Some(array_items(split_commas(rest.take(e)))),
                None => None,
            }
        },
    }
}

/// The array value of `key`: after `key=[`, `key = [`, `key= [` or
/// `key =[`, tried in that order, up to the closing bracket.
pub open spec fn array_value(tokens: Seq<char>, key: Seq<char>) -> Option<Seq<Seq<char>>> {
    let a = bracketed_after(tokens, key + "=["@);
    let b = bracketed_after(tokens, key + " = ["@);
    let c = bracketed_after(tokens, key + "= ["@);
    let d = bracketed_after(tokens, key + " =["@);
    if a is Some {
        a
    } else if b is Some {
        b
    } else if c is Some {
        c
    } else {
        d
    }
}

/// The bounds `[a, b)` of `s[lo..hi]` without quotes at either end.
fn unquote_bounds(s: &Vec<char>, lo: usize, hi: usize) -> (r: (usize, usize))
    requires
        lo <= hi <= s@.len(),
    ensures
        lo <= r.0 <= r.1 <= hi,
        s@.subrange(r.0 as int, r.1 as int) == unquote_end(
            unquote_start(s@.subrange(lo as int, hi as int)),
        ),
{
    let mut a = lo;
    while a < hi && s[a] == '"'
        invariant
            lo <= a <= hi <= s@.len(),
            unquote_start(s@.subrange(lo as int, hi as int)) == unquote_start(
                s@.subrange(a as int, hi as int),
            ),
        decreases hi - a,
    {
        assert(s@.subrange(a as int, hi as int).drop_first() =~= s@.subrange(a + 1, hi as int));
        a = a + 1;
    }
    let ghost t = s@.subrange(a as int, hi as int);
    assert(unquote_start(t) == t);
    let mut b = hi;
    assert(s@.subrange(a as int, b as int) =~= t);
    while b > a && s[b - 1] == '"'
        invariant
            lo <= a <= b <= hi <= s@.len(),
            t == s@.subrange(a as int, hi as int),
            unquote_end(t) == unquote_end(s@.subrange(a as int, b as int)),
        decreases b - a,
    {
        assert(s@.subrange(a as int, b as int).drop_last() =~= s@.subrange(a as int, b - 1));
        b = b - 1;
    }
    (a, b)
}

/// Appends the array item of the piece `c[start..end]`, when non-empty.
fn push_item(c: &Vec<char>, start: usize, end: usize, out: &mut Vec<String>)
    requires
        start <= end <= c@.len(),
    ensures
        strs(final(out)@) == if array_item(c@.subrange(start as int, end as int)).len() > 0 {
            strs(old(out)@).push(array_item(c@.subrange(start as int, end as int)))
        } else {
            strs(old(out)@)
        },
{
    let (a, b) = trim_bounds(c, start, end);
    let (qa, qb) = unquote_bounds(c, a, b);
    if qa < qb {
        let v = slice_chars(c, qa, qb);
        let ghost prev = out@;
        out.push(string_of(v.as_slice()));
        assert(strs(out@) =~= strs(prev).push(v@));
    }
}

/// The array items of the text `c`: its comma-separated pieces, trimmed
/// and unquoted, the empty ones left out.
fn list_items(c: &Vec<char>) -> (r: Vec<String>)
    ensures
        strs(r@) == array_items(split_commas(c@)),
{
    let n = c.len();
    let mut out: Vec<String> = Vec::new();
    let mut start: usize = 0;
    let mut i: usize = 0;
    assert(c@.take(0) =~= Seq::<char>::empty());
    assert(split_commas(c@.take(0)) =~= seq![Seq::<char>::empty()]);
    assert(strs(out@) =~= Seq::<Seq<char>>::empty());
    while i < n
        invariant
            start <= i <= n,
            n == c@.len(),
            split_commas(c@.take(i as int)).len() >= 1,
            split_commas(c@.take(i as int)).last() == c@.subrange(start as int, i as int),
            strs(out@) == array_items(split_commas(c@.take(i as int)).drop_last()),
        decreases n - i,
    {
        let ghost pp = split_commas(c@.take(i as int));
        let ghost c2 = c@.take(i + 1);
        proof {
            assert(c2.drop_last() =~= c@.take(i as int));
            assert(c2.last() == c@[i as int]);
        }
        if c[i] == ',' {
            let ghost item = array_item(c@.subrange(start as int, i as int));
            assert(pp.drop_last().push(pp.last()) =~= pp);
            push_item(c, start, i, &mut out);
            assert(strs(out@) == array_items(pp));
            assert(split_commas(c2) == pp.push(Seq::empty()));
            assert(split_commas(c2).drop_last() =~= pp);
            assert(c@.subrange(i + 1, i + 1) =~= Seq::<char>::empty());
            start = i + 1;
        } else {
            proof {
                let p2 = pp.update(pp.len() - 1, pp.last().push(c@[i as int]));
                assert(split_commas(c2) == p2);
                assert(p2.drop_last() =~= pp.drop_last());
                assert(c@.subrange(start as int, i + 1) =~= c@.subrange(start as int, i as int).push(
                    c@[i as int],
                ));
            }
        }
        i = i + 1;
    }
    let ghost pp = split_commas(c@.take(i as int));
    assert(c@.take(i as int) =~= c@);
    assert(pp.drop_last().push(pp.last()) =~= pp);
    push_item(c, start, n, &mut out);
    out
}

fn bracketed_after_exec(t: &Vec<char>, pattern: &str) -> (r: Option<Vec<String>>)
    ensures
        match bracketed_after(t@, pattern@) {
            Some(v) => r matches Some(x) && strs(x@) == v,
            None => r is None,
        },
{
    let p = chars_of(pattern);
    match find_chars(t, &p) {
        None => None,
        Some(st) => {
            let total = t.len();
            assert(st + p@.len() <= total);
            let rest = tail_chars(t, st + p.len());
            let mut q: Vec<char> = Vec::new();
            q.push(']');
            assert(q@ =~= seq![']']);
            match find_chars(&rest, &q) {
                Some(e) => {
                    let content = slice_chars(&rest, 0, e);
                    assert(rest@.subrange(0, e as int) =~= rest@.take(e as int));
                    Some(list_items(&content))
                },
                None => None,
            }
        },
    }
}

/// The array value of `key` in the attribute text `tokens`, if given.
pub fn extract_array_from_tokens(tokens: &str, key: &str) -> (r: Option<Vec<String>>)
    ensures
        match array_value(tokens@, key@) {
            Some(v) => r matches Some(x) && strs(x@) == v,
            None => r is None,
        },
{
    let t = chars_of(tokens);
    let pa = concat(key, "=[");
    if let Some(v) = bracketed_after_exec(&t, pa.as_str()) {
        return Some(v);
    }
    let pb = concat(key, " = [");
    if let Some(v) = bracketed_after_exec(&t, pb.as_str()) {
        return Some(v);
    }
    let pc = concat(key, "= [");
    if let Some(v) = bracketed_after_exec(&t, pc.as_str()) {
        return Some(v);
    }
    let pd = concat(key, " =[");
    bracketed_after_exec(&t, pd.as_str())
}


// ---------------------------------------------------------------------------
// The attributes a derive reads
// ---------------------------------------------------------------------------

/// One decorator attribute, its keys read and defaults filled in.
#[allow(inconsistent_fields)]
pub enum SpatialAttribute {
    Attribute { field: String },
    Flag { name: String },
    Orientation { selector: String, directions: Vec<String>, negated: bool },
    Align { selector: String, direction: String, negated: bool },
    Cyclic { selector: String, direction: String, negated: bool },
    GroupSelector { selector: String, name: String, negated: bool },
    GroupField { field: String, group_on: u32, add_to_group: u32, negated: bool },
    AtomColor { selector: String, value: String },
    Size { selector: String, height: u32, width: u32 },
    Icon { selector: String, path: String, show_labels: bool },
    /// An edge style; `weight_bits` is the bit pattern of the `f64` weight.
    EdgeStyle {
        field: String,
        value: String,
        selector: Option<String>,
        filter: Option<String>,
        style: Option<String>,
        weight_bits: Option<u64>,
        show_label: Option<bool>,
        hidden: Option<bool>,
    },
    Projection { sig: String },
    HideField { field: String, selector: Option<String> },
    HideAtom { selector: String },
    InferredEdge { name: String, selector: String },
    Tag { to_tag: String, name: String, value: String },
}

/// The content of a [`SpatialAttribute`].
#[allow(inconsistent_fields)]
pub enum AttributeView {
    Attribute { field: Seq<char> },
    Flag { name: Seq<char> },
    Orientation { selector: Seq<char>, directions: Seq<Seq<char>>, negated: bool },
    Align { selector: Seq<char>, direction: Seq<char>, negated: bool },
    Cyclic { selector: Seq<char>, direction: Seq<char>, negated: bool },
    GroupSelector { selector: Seq<char>, name: Seq<char>, negated: bool },
    GroupField { field: Seq<char>, group_on: u32, add_to_group: u32, negated: bool },
    AtomColor { selector: Seq<char>, value: Seq<char> },
    Size { selector: Seq<char>, height: u32, width: u32 },
    Icon { selector: Seq<char>, path: Seq<char>, show_labels: bool },
    EdgeStyle {
        field: Seq<char>,
        value: Seq<char>,
        selector: Option<Seq<char>>,
        filter: Option<Seq<char>>,
        style: Option<Seq<char>>,
        weight_bits: Option<u64>,
        show_label: Option<bool>,
        hidden: Option<bool>,
    },
    Projection { sig: Seq<char> },
    HideField { field: Seq<char>, selector: Option<Seq<char>> },
    HideAtom { selector: Seq<char> },
    InferredEdge { name: Seq<char>, selector: Seq<char> },
    Tag { to_tag: Seq<char>, name: Seq<char>, value: Seq<char> },
}

/// The characters of an optional string.
pub open spec fn opt_text(o: Option<String>) -> Option<Seq<char>> {
    match o {
        Some(s) => Some(s@),
        None => None,
    }
}

impl View for SpatialAttribute {
    type V = AttributeView;

    open spec fn view(&self) -> AttributeView {
        match self {
            SpatialAttribute::Attribute { field } => AttributeView::Attribute { field: field@ },
            SpatialAttribute::Flag { name } => AttributeView::Flag { name: name@ },
            SpatialAttribute::Orientation { selector, directions, negated } =>
                AttributeView::Orientation {
                selector: selector@,
                directions: strs(directions@),
                negated: *negated,
            },
            SpatialAttribute::Align { selector, direction, negated } => AttributeView::Align {
                selector: selector@,
                direction: direction@,
                negated: *negated,
            },
            SpatialAttribute::Cyclic { selector, direction, negated } => AttributeView::Cyclic {
                selector: selector@,
                direction: direction@,
                negated: *negated,
            },
            SpatialAttribute::GroupSelector { selector, name, negated } =>
                AttributeView::GroupSelector { selector: selector@, name: name@, negated: *negated },
            SpatialAttribute::GroupField { field, group_on, add_to_group, negated } =>
                AttributeView::GroupField {
                field: field@,
                group_on: *group_on,
                add_to_group: *add_to_group,
                negated: *negated,
            },
            SpatialAttribute::AtomColor { selector, value } => AttributeView::AtomColor {
                selector: selector@,
                value: value@,
            },
            SpatialAttribute::Size { selector, height, width } => AttributeView::Size {
                selector: selector@,
                height: *height,
                width: *width,
            },
            SpatialAttribute::Icon { selector, path, show_labels } => AttributeView::Icon {
                selector: selector@,
                path: path@,
                show_labels: *show_labels,
            },
            SpatialAttribute::EdgeStyle {
                field,
                value,
                selector,
                filter,
                style,
                weight_bits,
                show_label,
                hidden,
            } => AttributeView::EdgeStyle {
                field: field@,
                value: value@,
                selector: opt_text(*selector),
                filter: opt_text(*filter),
                style: opt_text(*style),
                weight_bits: *weight_bits,
                show_label: *show_label,
                hidden: *hidden,
            },
            SpatialAttribute::Projection { sig } => AttributeView::Projection { sig: sig@ },
            SpatialAttribute::HideField { field, selector } => AttributeView::HideField {
                field: field@,
                selector: opt_text(*selector),
            },
            SpatialAttribute::HideAtom { selector } => AttributeView::HideAtom { selector: selector@ },
            SpatialAttribute::InferredEdge { name, selector } => AttributeView::InferredEdge {
                name: name@,
                selector: selector@,
            },
            SpatialAttribute::Tag { to_tag, name, value } => AttributeView::Tag {
                to_tag: to_tag@,
                name: name@,
                value: value@,
            },
        }
    }
}

/// The content of an optional attribute.
pub open spec fn opt_attr(o: Option<SpatialAttribute>) -> Option<AttributeView> {
    match o {
        Some(a) => Some(a@),
        None => None,
    }
}

/// `o`'s text, or `d` when there is none.
pub open spec fn text_or(o: Option<Seq<char>>, d: Seq<char>) -> Seq<char> {
    match o {
        Some(v) => v,
        None => d,
    }
}

fn string_or(o: Option<String>, d: &str) -> (r: String)
    ensures
        r@ == text_or(opt_text(o), d@),
{
    match o {
        Some(v) => v,
        None => String::from_str(d),
    }
}

fn vec_strs(v: Vec<&str>) -> (r: Vec<String>)
    ensures
        strs(r@) == v@.map_values(|s: &str| s@),
{
    let mut r: Vec<String> = Vec::new();
    let mut i: usize = 0;
    while i < v.len()
        invariant
            i <= v@.len(),
            strs(r@) == v@.take(i as int).map_values(|s: &str| s@),
        decreases v.len() - i,
    {
        let ghost prev = r@;
        r.push(String::from_str(v[i]));
        assert(strs(r@) =~= strs(prev).push(v@[i as int]@));
        assert(v@.take(i + 1).map_values(|s: &str| s@) =~= v@.take(i as int).map_values(
            |s: &str| s@,
        ).push(v@[i as int]@));
        i = i + 1;
    }
    assert(v@.take(v@.len() as int) =~= v@);
    r
}

/// `#[attribute(field = ..)]`; the field defaults to `name`.
pub open spec fn attribute_spec(t: Option<Seq<char>>) -> AttributeView {
    AttributeView::Attribute {
        field: match t {
            Some(t) => text_or(string_value(t, "field"@), "name"@),
            None => "name"@,
        },
    }
}

/// `#[flag(name = ..)]`; the name defaults to `important`.
pub open spec fn flag_spec(t: Option<Seq<char>>) -> AttributeView {
    AttributeView::Flag {
        name: match t {
            Some(t) => text_or(string_value(t, "name"@), "important"@),
            None => "important"@,
        },
    }
}

/// Reads `#[attribute(..)]`.
pub fn parse_attribute_args(tokens: Option<&str>) -> (r: SpatialAttribute)
    ensures
        r@ == attribute_spec(opt_str_view(tokens)),
{
    let field = match tokens {
        Some(t) => string_or(extract_string_from_tokens(t, "field"), "name"),
        None => String::from_str("name"),
    };
    SpatialAttribute::Attribute { field }
}

/// Reads `#[flag(..)]`.
pub fn parse_flag_args(tokens: Option<&str>) -> (r: SpatialAttribute)
    ensures
        r@ == flag_spec(opt_str_view(tokens)),
{
    let name = match tokens {
        Some(t) => string_or(extract_string_from_tokens(t, "name"), "important"),
        None => String::from_str("important"),
    };
    SpatialAttribute::Flag { name }
}

/// The characters of an optional borrowed string.
pub open spec fn opt_str_view(o: Option<&str>) -> Option<Seq<char>> {
    match o {
        Some(s) => Some(s@),
        None => None,
    }
}

/// `#[orientation(..)]`: selector `""`, directions `["up", "down"]`,
/// not negated, unless given.
pub open spec fn orientation_spec(t: Seq<char>) -> AttributeView {
    let n = normalized(t);
    AttributeView::Orientation {
        selector: text_or(string_value(n, "selector"@), ""@),
        directions: match array_value(n, "directions"@) {
            Some(v) => v,
            None => seq!["up"@, "down"@],
        },
        negated: match bool_value(n, "negated"@) {
            Some(b) => b,
            None => false,
        },
    }
}

/// Reads `#[orientation(..)]`; nothing without a list.
pub fn parse_orientation_args(tokens: Option<&str>) -> (r: Option<SpatialAttribute>)
    ensures
        opt_attr(r) == match tokens {
            Some(t) => Some(orientation_spec(t@)),
            None => None,
        },
{
    match tokens {
        None => None,
        Some(t) => {
            let n = normalize_whitespace(t);
            let selector = string_or(extract_string_from_tokens(n.as_str(), "selector"), "");
            let directions = match extract_array_from_tokens(n.as_str(), "directions") {
                Some(v) => v,
                None => {
                    let d = vec_strs(vec!["up", "down"]);
                    assert(strs(d@) =~= seq!["up"@, "down"@]);
                    d
                },
            };
            let negated = match extract_bool_from_tokens(n.as_str(), "negated") {
                Some(b) => b,
                None => false,
            };
            Some(SpatialAttribute::Orientation { selector, directions, negated })
        },
    }
}


/// A `bool` value or a default.
pub open spec fn bool_or(o: Option<bool>, d: bool) -> bool {
    match o {
        Some(b) => b,
        None => d,
    }
}

/// A `u32` value or a default.
pub open spec fn number_or(o: Option<u32>, d: u32) -> u32 {
    match o {
        Some(v) => v,
        None => d,
    }
}

/// `#[group(..)]` with list text `t` and list keys `keys`: field-based when
/// a `field` key is given (field `id`, `group_on` 1, `add_to_group` 2 by
/// default), selector-based otherwise (selector `""`, name `default`); not
/// negated unless given.
pub open spec fn group_spec(t: Seq<char>, keys: Seq<Seq<char>>) -> AttributeView {
    let n = normalized(t);
    let negated = bool_or(bool_value(n, "negated"@), false);
    if keys.contains("field"@) {
        AttributeView::GroupField {
            field: text_or(string_value(n, "field"@), "id"@),
            group_on: number_or(number_value(n, "group_on"@), 1),
            add_to_group: number_or(number_value(n, "add_to_group"@), 2),
            negated,
        }
    } else {
        AttributeView::GroupSelector {
            selector: text_or(string_value(n, "selector"@), ""@),
            name: text_or(string_value(n, "name"@), "default"@),
            negated,
        }
    }
}

/// Whether `keys` holds `key`.
fn has_key(keys: &Vec<String>, key: &str) -> (r: bool)
    ensures
        r == strs(keys@).contains(key@),
{
    let mut i: usize = 0;
    while i < keys.len()
        invariant
            i <= keys@.len(),
            forall|j: int| 0 <= j < i ==> strs(keys@)[j] != key@,
        decreases keys.len() - i,
    {
        if same_text(keys[i].as_str(), key) {
            assert(strs(keys@)[i as int] == key@);
            return true;
        }
        i = i + 1;
    }
    false
}

/// Reads `#[group(..)]` from its list text and the keys of its list;
/// nothing without a list.
pub fn parse_group_args(tokens: Option<&str>, keys: &Vec<String>) -> (r: Option<SpatialAttribute>)
    ensures
        opt_attr(r) == match tokens {
            Some(t) => Some(group_spec(t@, strs(keys@))),
            None => None,
        },
{
    match tokens {
        None => None,
        Some(t) => {
            let n = normalize_whitespace(t);
            let negated = match extract_bool_from_tokens(n.as_str(), "negated") {
                Some(b) => b,
                None => false,
            };
            if has_key(keys, "field") {
                let field = string_or(extract_string_from_tokens(n.as_str(), "field"), "id");
                let group_on = match extract_number_from_tokens(n.as_str(), "group_on") {
                    Some(v) => v,
                    None => 1,
                };
                let add_to_group = match extract_number_from_tokens(n.as_str(), "add_to_group") {
                    Some(v) => v,
                    None => 2,
                };
                Some(SpatialAttribute::GroupField { field, group_on, add_to_group, negated })
            } else {
                let selector = string_or(extract_string_from_tokens(n.as_str(), "selector"), "");
                let name = string_or(extract_string_from_tokens(n.as_str(), "name"), "default");
                Some(SpatialAttribute::GroupSelector { selector, name, negated })
            }
        },
    }
}

/// `#[align(..)]`: selector `""`, direction `horizontal`, not negated,
/// unless given.
pub open spec fn align_spec(t: Seq<char>) -> AttributeView {
    let n = normalized(t);
    AttributeView::Align {
        selector: text_or(string_value(n, "selector"@), ""@),
        direction: text_or(string_value(n, "direction"@), "horizontal"@),
        negated: bool_or(bool_value(n, "negated"@), false),
    }
}

/// Reads `#[align(..)]`; nothing without a list.
pub fn parse_align_args(tokens: Option<&str>) -> (r: Option<SpatialAttribute>)
    ensures
        opt_attr(r) == match tokens {
            Some(t) => Some(align_spec(t@)),
            None => None,
        },
{
    match tokens {
        None => None,
        Some(t) => {
            let n = normalize_whitespace(t);
            let selector = string_or(extract_string_from_tokens(n.as_str(), "selector"), "");
            let direction = string_or(extract_string_from_tokens(n.as_str(), "direction"), "horizontal");
            let negated = match extract_bool_from_tokens(n.as_str(), "negated") {
                Some(b) => b,
                None => false,
            };
            Some(SpatialAttribute::Align { selector, direction, negated })
        },
    }
}

/// `#[cyclic(..)]`: selector `""`, direction `up`, not negated, unless
/// given.
pub open spec fn cyclic_spec(t: Seq<char>) -> AttributeView {
    let n = normalized(t);
    AttributeView::Cyclic {
        selector: text_or(string_value(n, "selector"@), ""@),
        direction: text_or(string_value(n, "direction"@), "up"@),
        negated: bool_or(bool_value(n, "negated"@), false),
    }
}

/// Reads `#[cyclic(..)]`; nothing without a list.
pub fn parse_cyclic_args(tokens: Option<&str>) -> (r: Option<SpatialAttribute>)
    ensures
        opt_attr(r) == match tokens {
            Some(t) => Some(cyclic_spec(t@)),
            None => None,
        },
{
    match tokens {
        None => None,
        Some(t) => {
            let n = normalize_whitespace(t);
            let selector = string_or(extract_string_from_tokens(n.as_str(), "selector"), "");
            let direction = string_or(extract_string_from_tokens(n.as_str(), "direction"), "up");
            let negated = match extract_bool_from_tokens(n.as_str(), "negated") {
                Some(b) => b,
                None => false,
            };
            Some(SpatialAttribute::Cyclic { selector, direction, negated })
        },
    }
}

/// `#[atom_color(..)]`: selector `""`, value `blue`, unless given.
pub open spec fn atom_color_spec(t: Seq<char>) -> AttributeView {
    AttributeView::AtomColor {
        selector: text_or(string_value(t, "selector"@), ""@),
        value: text_or(string_value(t, "value"@), "blue"@),
    }
}

/// Reads `#[atom_color(..)]`; nothing without a list.
pub fn parse_atom_color_args(tokens: Option<&str>) -> (r: Option<SpatialAttribute>)
    ensures
        opt_attr(r) == match tokens {
            Some(t) => Some(atom_color_spec(t@)),
            None => None,
        },
{
    match tokens {
        None => None,
        Some(t) => {
            let selector = string_or(extract_string_from_tokens(t, "selector"), "");
            let value = string_or(extract_string_from_tokens(t, "value"), "blue");
            Some(SpatialAttribute::AtomColor { selector, value })
        },
    }
}

/// `#[size(..)]`: selector `""`, height 20, width 30, unless given.
pub open spec fn size_spec(t: Seq<char>) -> AttributeView {
    AttributeView::Size {
        selector: text_or(string_value(t, "selector"@), ""@),
        height: number_or(number_value(t, "height"@), 20),
        width: number_or(number_value(t, "width"@), 30),
    }
}

/// Reads `#[size(..)]`; nothing without a list.
pub fn parse_size_args(tokens: Option<&str>) -> (r: Option<SpatialAttribute>)
    ensures
        opt_attr(r) == match tokens {
            Some(t) => Some(size_spec(t@)),
            None => None,
        },
{
    match tokens {
        None => None,
        Some(t) => {
            let selector = string_or(extract_string_from_tokens(t, "selector"), "");
            let height = match extract_number_from_tokens(t, "height") {
                Some(v) => v,
                None => 20,
            };
            let width = match extract_number_from_tokens(t, "width") {
                Some(v) => v,
                None => 30,
            };
            Some(SpatialAttribute::Size { selector, height, width })
        },
    }
}

/// `#[icon(..)]`: selector `""`, path `icon.png`, labels shown, unless
/// given.
pub open spec fn icon_spec(t: Seq<char>) -> AttributeView {
    AttributeView::Icon {
        selector: text_or(string_value(t, "selector"@), ""@),
        path: text_or(string_value(t, "path"@), "icon.png"@),
        show_labels: bool_or(bool_value(t, "show_labels"@), true),
    }
}

/// Reads `#[icon(..)]`; nothing without a list.
pub fn parse_icon_args(tokens: Option<&str>) -> (r: Option<SpatialAttribute>)
    ensures
        opt_attr(r) == match tokens {
            Some(t) => Some(icon_spec(t@)),
            None => None,
        },
{
    match tokens {
        None => None,
        Some(t) => {
            let selector = string_or(extract_string_from_tokens(t, "selector"), "");
            let path = string_or(extract_string_from_tokens(t, "path"), "icon.png");
            let show_labels = match extract_bool_from_tokens(t, "show_labels") {
                Some(b) => b,
                None => true,
            };
            Some(SpatialAttribute::Icon { selector, path, show_labels })
        },
    }
}

/// `#[edge_style(..)]`: field `relation`, value `blue`, the rest absent,
/// unless given; the weight is the one read from the same text.
pub open spec fn edge_style_spec(t: Seq<char>, weight_bits: Option<u64>) -> AttributeView {
    let n = normalized(t);
    AttributeView::EdgeStyle {
        field: text_or(string_value(n, "field"@), "relation"@),
        value: text_or(string_value(n, "value"@), "blue"@),
        selector: string_value(n, "selector"@),
        filter: string_value(n, "filter"@),
        style: string_value(n, "style"@),
        weight_bits,
        show_label: bool_value(n, "show_label"@),
        hidden: bool_value(n, "hidden"@),
    }
}

/// Reads `#[edge_style(..)]`; nothing without a list. `weight_bits` is
/// the bit pattern of the `weight` the text gives, if it gives a float.
pub fn parse_edge_style_args(tokens: Option<&str>, weight_bits: Option<u64>) -> (r: Option<
    SpatialAttribute,
>)
    ensures
        opt_attr(r) == match tokens {
            Some(t) => Some(edge_style_spec(t@, weight_bits)),
            None => None,
        },
{
    match tokens {
        None => None,
        Some(t) => {
            let n = normalize_whitespace(t);
            let ns = n.as_str();
            let field = string_or(extract_string_from_tokens(ns, "field"), "relation");
            let value = string_or(extract_string_from_tokens(ns, "value"), "blue");
            let selector = extract_string_from_tokens(ns, "selector");
            let filter = extract_string_from_tokens(ns, "filter");
            let style = extract_string_from_tokens(ns, "style");
            let show_label = extract_bool_from_tokens(ns, "show_label");
            let hidden = extract_bool_from_tokens(ns, "hidden");
            Some(
                SpatialAttribute::EdgeStyle {
                    field,
                    value,
                    selector,
                    filter,
                    style,
                    weight_bits,
                    show_label,
                    hidden,
                },
            )
        },
    }
}

/// `#[projection(..)]`: signature `default` unless given.
pub open spec fn projection_spec(t: Seq<char>) -> AttributeView {
    AttributeView::Projection { sig: text_or(string_value(t, "sig"@), "default"@) }
}

/// Reads `#[projection(..)]`; nothing without a list.
pub fn parse_projection_args(tokens: Option<&str>) -> (r: Option<SpatialAttribute>)
    ensures
        opt_attr(r) == match tokens {
            Some(t) => Some(projection_spec(t@)),
            None => None,
        },
{
    match tokens {
        None => None,
        Some(t) => Some(SpatialAttribute::Projection { sig: string_or(extract_string_from_tokens(t, "sig"), "default") }),
    }
}

/// `#[hide_field(..)]`: field `field`, no selector, unless given.
pub open spec fn hide_field_spec(t: Seq<char>) -> AttributeView {
    AttributeView::HideField {
        field: text_or(string_value(t, "field"@), "field"@),
        selector: string_value(t, "selector"@),
    }
}

/// Reads `#[hide_field(..)]`; nothing without a list.
pub fn parse_hide_field_args(tokens: Option<&str>) -> (r: Option<SpatialAttribute>)
    ensures
        opt_attr(r) == match tokens {
            Some(t) => Some(hide_field_spec(t@)),
            None => None,
        },
{
    match tokens {
        None => None,
        Some(t) => {
            let field = string_or(extract_string_from_tokens(t, "field"), "field");
            let selector = extract_string_from_tokens(t, "selector");
            Some(SpatialAttribute::HideField { field, selector })
        },
    }
}

/// `#[hide_atom(..)]`: selector `""` unless given.
pub open spec fn hide_atom_spec(t: Seq<char>) -> AttributeView {
    AttributeView::HideAtom { selector: text_or(string_value(t, "selector"@), ""@) }
}

/// Reads `#[hide_atom(..)]`; nothing without a list.
pub fn parse_hide_atom_args(tokens: Option<&str>) -> (r: Option<SpatialAttribute>)
    ensures
        opt_attr(r) == match tokens {
            Some(t) => Some(hide_atom_spec(t@)),
            None => None,
        },
{
    match tokens {
        None => None,
        Some(t) => Some(SpatialAttribute::HideAtom { selector: string_or(extract_string_from_tokens(t, "selector"), "") }),
    }
}

/// `#[inferred_edge(..)]`: name `edge`, selector `""`, unless given.
pub open spec fn inferred_edge_spec(t: Seq<char>) -> AttributeView {
    AttributeView::InferredEdge {
        name: text_or(string_value(t, "name"@), "edge"@),
        selector: text_or(string_value(t, "selector"@), ""@),
    }
}

/// Reads `#[inferred_edge(..)]`; nothing without a list.
pub fn parse_inferred_edge_args(tokens: Option<&str>) -> (r: Option<SpatialAttribute>)
    ensures
        opt_attr(r) == match tokens {
            Some(t) => Some(inferred_edge_spec(t@)),
            None => None,
        },
{
    match tokens {
        None => None,
        Some(t) => {
            let name = string_or(extract_string_from_tokens(t, "name"), "edge");
            let selector = string_or(extract_string_from_tokens(t, "selector"), "");
            Some(SpatialAttribute::InferredEdge { name, selector })
        },
    }
}

/// `#[tag(..)]`: each of `to_tag`, `name` and `value` empty unless given.
pub open spec fn tag_spec(t: Seq<char>) -> AttributeView {
    AttributeView::Tag {
        to_tag: text_or(string_value(t, "to_tag"@), ""@),
        name: text_or(string_value(t, "name"@), ""@),
        value: text_or(string_value(t, "value"@), ""@),
    }
}

/// Reads `#[tag(..)]`; nothing without a list.
pub fn parse_tag_args(tokens: Option<&str>) -> (r: Option<SpatialAttribute>)
    ensures
        opt_attr(r) == match tokens {
            Some(t) => Some(tag_spec(t@)),
            None => None,
        },
{
    match tokens {
        None => None,
        Some(t) => {
            let to_tag = string_or(extract_string_from_tokens(t, "to_tag"), "");
            let name = string_or(extract_string_from_tokens(t, "name"), "");
            let value = string_or(extract_string_from_tokens(t, "value"), "");
            Some(SpatialAttribute::Tag { to_tag, name, value })
        },
    }
}


/// `#[orientation(..)]` takes each value its list gives (`selector`, `directions`, `negated`) and the
/// documented default for each one it does not give.
pub proof fn lemma_orientation_reads_its_keys(t: Seq<char>)
    ensures
        match orientation_spec(t) {
            AttributeView::Orientation { selector, directions, negated } => {
                &&& (string_value(normalized(t), "selector"@) is Some ==> selector == string_value(normalized(t), "selector"@)->0)
                &&& (string_value(normalized(t), "selector"@) is None ==> selector == ""@)
                &&& (array_value(normalized(t), "directions"@) is Some ==> directions == array_value(normalized(t), "directions"@)->0)
                &&& (array_value(normalized(t), "directions"@) is None ==> directions == seq!["up"@, "down"@])
                &&& (bool_value(normalized(t), "negated"@) is Some ==> negated == bool_value(normalized(t), "negated"@)->0)
                &&& (bool_value(normalized(t), "negated"@) is None ==> negated == false)
            },
            _ => false,
        },
{
}

/// `#[align(..)]` takes each value its list gives (`selector`, `direction`, `negated`) and the
/// documented default for each one it does not give.
pub proof fn lemma_align_reads_its_keys(t: Seq<char>)
    ensures
        match align_spec(t) {
            AttributeView::Align { selector, direction, negated } => {
                &&& (string_value(normalized(t), "selector"@) is Some ==> selector == string_value(normalized(t), "selector"@)->0)
                &&& (string_value(normalized(t), "selector"@) is None ==> selector == ""@)
                &&& (string_value(normalized(t), "direction"@) is Some ==> direction == string_value(normalized(t), "direction"@)->0)
                &&& (string_value(normalized(t), "direction"@) is None ==> direction == "horizontal"@)
                &&& (bool_value(normalized(t), "negated"@) is Some ==> negated == bool_value(normalized(t), "negated"@)->0)
                &&& (bool_value(normalized(t), "negated"@) is None ==> negated == false)
            },
            _ => false,
        },
{
}

/// `#[cyclic(..)]` takes each value its list gives (`selector`, `direction`, `negated`) and the
/// documented default for each one it does not give.
pub proof fn lemma_cyclic_reads_its_keys(t: Seq<char>)
    ensures
        match cyclic_spec(t) {
            AttributeView::Cyclic { selector, direction, negated } => {
                &&& (string_value(normalized(t), "selector"@) is Some ==> selector == string_value(normalized(t), "selector"@)->0)
                &&& (string_value(normalized(t), "selector"@) is None ==> selector == ""@)
                &&& (string_value(normalized(t), "direction"@) is Some ==> direction == string_value(normalized(t), "direction"@)->0)
                &&& (string_value(normalized(t), "direction"@) is None ==> direction == "up"@)
                &&& (bool_value(normalized(t), "negated"@) is Some ==> negated == bool_value(normalized(t), "negated"@)->0)
                &&& (bool_value(normalized(t), "negated"@) is None ==> negated == false)
            },
            _ => false,
        },
{
}

/// `#[atom_color(..)]` takes each value its list gives (`selector`, `value`) and the
/// documented default for each one it does not give.
pub proof fn lemma_atom_color_reads_its_keys(t: Seq<char>)
    ensures
        match atom_color_spec(t) {
            AttributeView::AtomColor { selector, value } => {
                &&& (string_value(t, "selector"@) is Some ==> selector == string_value(t, "selector"@)->0)
                &&& (string_value(t, "selector"@) is None ==> selector == ""@)
                &&& (string_value(t, "value"@) is Some ==> value == string_value(t, "value"@)->0)
                &&& (string_value(t, "value"@) is None ==> value == "blue"@)
            },
            _ => false,
        },
{
}

/// `#[size(..)]` takes each value its list gives (`selector`, `height`, `width`) and the
/// documented default for each one it does not give.
pub proof fn lemma_size_reads_its_keys(t: Seq<char>)
    ensures
        match size_spec(t) {
            AttributeView::Size { selector, height, width } => {
                &&& (string_value(t, "selector"@) is Some ==> selector == string_value(t, "selector"@)->0)
                &&& (string_value(t, "selector"@) is None ==> selector == ""@)
                &&& (number_value(t, "height"@) is Some ==> height == number_value(t, "height"@)->0)
                &&& (number_value(t, "height"@) is None ==> height == 20)
                &&& (number_value(t, "width"@) is Some ==> width == number_value(t, "width"@)->0)
                &&& (number_value(t, "width"@) is None ==> width == 30)
            },
            _ => false,
        },
{
}

/// `#[icon(..)]` takes each value its list gives (`selector`, `path`, `show_labels`) and the
/// documented default for each one it does not give.
pub proof fn lemma_icon_reads_its_keys(t: Seq<char>)
    ensures
        match icon_spec(t) {
            AttributeView::Icon { selector, path, show_labels } => {
                &&& (string_value(t, "selector"@) is Some ==> selector == string_value(t, "selector"@)->0)
                &&& (string_value(t, "selector"@) is None ==> selector == ""@)
                &&& (string_value(t, "path"@) is Some ==> path == string_value(t, "path"@)->0)
                &&& (string_value(t, "path"@) is None ==> path == "icon.png"@)
                &&& (bool_value(t, "show_labels"@) is Some ==> show_labels == bool_value(t, "show_labels"@)->0)
                &&& (bool_value(t, "show_labels"@) is None ==> show_labels == true)
            },
            _ => false,
        },
{
}

/// `#[edge_style(..)]` takes each value its list gives (`field`, `value`, `selector`, `filter`, `style`, `show_label`, `hidden`, and the weight read from it) and the
/// documented default for each one it does not give.
pub proof fn lemma_edge_style_reads_its_keys(t: Seq<char>, weight_bits: Option<u64>)
    ensures
        match edge_style_spec(t, weight_bits) {
            AttributeView::EdgeStyle { field, value, selector, filter, style, show_label, hidden, weight_bits } => {
                &&& (string_value(normalized(t), "field"@) is Some ==> field == string_value(normalized(t), "field"@)->0)
                &&& (string_value(normalized(t), "field"@) is None ==> field == "relation"@)
                &&& (string_value(normalized(t), "value"@) is Some ==> value == string_value(normalized(t), "value"@)->0)
                &&& (string_value(normalized(t), "value"@) is None ==> value == "blue"@)
                &&& selector == string_value(normalized(t), "selector"@)
                &&& filter == string_value(normalized(t), "filter"@)
                &&& style == string_value(normalized(t), "style"@)
                &&& show_label == bool_value(normalized(t), "show_label"@)
                &&& hidden == bool_value(normalized(t), "hidden"@)
                &&& weight_bits == weight_bits
            },
            _ => false,
        },
{
}

/// `#[projection(..)]` takes each value its list gives (`sig`) and the
/// documented default for each one it does not give.
pub proof fn lemma_projection_reads_its_keys(t: Seq<char>)
    ensures
        match projection_spec(t) {
            AttributeView::Projection { sig } => {
                &&& (string_value(t, "sig"@) is Some ==> sig == string_value(t, "sig"@)->0)
                &&& (string_value(t, "sig"@) is None ==> sig == "default"@)
            },
            _ => false,
        },
{
}

/// `#[hide_field(..)]` takes each value its list gives (`field`, `selector`) and the
/// documented default for each one it does not give.
pub proof fn lemma_hide_field_reads_its_keys(t: Seq<char>)
    ensures
        match hide_field_spec(t) {
            AttributeView::HideField { field, selector } => {
                &&& (string_value(t, "field"@) is Some ==> field == string_value(t, "field"@)->0)
                &&& (string_value(t, "field"@) is None ==> field == "field"@)
                &&& selector == string_value(t, "selector"@)
            },
            _ => false,
        },
{
}

/// `#[hide_atom(..)]` takes each value its list gives (`selector`) and the
/// documented default for each one it does not give.
pub proof fn lemma_hide_atom_reads_its_keys(t: Seq<char>)
    ensures
        match hide_atom_spec(t) {
            AttributeView::HideAtom { selector } => {
                &&& (string_value(t, "selector"@) is Some ==> selector == string_value(t, "selector"@)->0)
                &&& (string_value(t, "selector"@) is None ==> selector == ""@)
            },
            _ => false,
        },
{
}

/// `#[inferred_edge(..)]` takes each value its list gives (`name`, `selector`) and the
/// documented default for each one it does not give.
pub proof fn lemma_inferred_edge_reads_its_keys(t: Seq<char>)
    ensures
        match inferred_edge_spec(t) {
            AttributeView::InferredEdge { name, selector } => {
                &&& (string_value(t, "name"@) is Some ==> name == string_value(t, "name"@)->0)
                &&& (string_value(t, "name"@) is None ==> name == "edge"@)
                &&& (string_value(t, "selector"@) is Some ==> selector == string_value(t, "selector"@)->0)
                &&& (string_value(t, "selector"@) is None ==> selector == ""@)
            },
            _ => false,
        },
{
}

/// `#[tag(..)]` takes each value its list gives (`to_tag`, `name`, `value`) and the
/// documented default for each one it does not give.
pub proof fn lemma_tag_reads_its_keys(t: Seq<char>)
    ensures
        match tag_spec(t) {
            AttributeView::Tag { to_tag, name, value } => {
                &&& (string_value(t, "to_tag"@) is Some ==> to_tag == string_value(t, "to_tag"@)->0)
                &&& (string_value(t, "to_tag"@) is None ==> to_tag == ""@)
                &&& (string_value(t, "name"@) is Some ==> name == string_value(t, "name"@)->0)
                &&& (string_value(t, "name"@) is None ==> name == ""@)
                &&& (string_value(t, "value"@) is Some ==> value == string_value(t, "value"@)->0)
                &&& (string_value(t, "value"@) is None ==> value == ""@)
            },
            _ => false,
        },
{
}

/// `#[group(..)]` is field-based exactly when a `field` key is given, and
/// takes each value its list gives and the documented default for each one
/// it does not give.
pub proof fn lemma_group_reads_its_keys(t: Seq<char>, keys: Seq<Seq<char>>)
    ensures
        keys.contains("field"@) <==> group_spec(t, keys) is GroupField,
        match group_spec(t, keys) {
            AttributeView::GroupField { field, group_on, add_to_group, negated } => {
                &&& (string_value(normalized(t), "field"@) is Some ==> field == string_value(normalized(t), "field"@)->0)
                &&& (string_value(normalized(t), "field"@) is None ==> field == "id"@)
                &&& (number_value(normalized(t), "group_on"@) is Some ==> group_on == number_value(normalized(t), "group_on"@)->0)
                &&& (number_value(normalized(t), "group_on"@) is None ==> group_on == 1)
                &&& (number_value(normalized(t), "add_to_group"@) is Some ==> add_to_group == number_value(normalized(t), "add_to_group"@)->0)
                &&& (number_value(normalized(t), "add_to_group"@) is None ==> add_to_group == 2)
                &&& (bool_value(normalized(t), "negated"@) is Some ==> negated == bool_value(normalized(t), "negated"@)->0)
                &&& (bool_value(normalized(t), "negated"@) is None ==> !negated)
            },
            AttributeView::GroupSelector { selector, name, negated } => {
                &&& (string_value(normalized(t), "selector"@) is Some ==> selector == string_value(normalized(t), "selector"@)->0)
                &&& (string_value(normalized(t), "selector"@) is None ==> selector == ""@)
                &&& (string_value(normalized(t), "name"@) is Some ==> name == string_value(normalized(t), "name"@)->0)
                &&& (string_value(normalized(t), "name"@) is None ==> name == "default"@)
                &&& (bool_value(normalized(t), "negated"@) is Some ==> negated == bool_value(normalized(t), "negated"@)->0)
                &&& (bool_value(normalized(t), "negated"@) is None ==> !negated)
            },
            _ => false,
        },
{
}

/// `#[attribute(..)]` and `#[flag(..)]` take the value their list gives,
/// and their defaults (`name`, `important`) otherwise or without a list.
pub proof fn lemma_attribute_and_flag_read_their_keys(t: Option<Seq<char>>)
    ensures
        match attribute_spec(t) {
            AttributeView::Attribute { field } => match t {
                Some(x) => (string_value(x, "field"@) is Some ==> field == string_value(x, "field"@)->0)
                    && (string_value(x, "field"@) is None ==> field == "name"@),
                None => field == "name"@,
            },
            _ => false,
        },
        match flag_spec(t) {
            AttributeView::Flag { name } => match t {
                Some(x) => (string_value(x, "name"@) is Some ==> name == string_value(x, "name"@)->0)
                    && (string_value(x, "name"@) is None ==> name == "important"@),
                None => name == "important"@,
            },
            _ => false,
        },
{
}

// ---------------------------------------------------------------------------
// Keys an attribute accepts
// ---------------------------------------------------------------------------

/// The keys each decorator attribute accepts; `None` for any other
/// attribute.
pub open spec fn known_keys(name: Seq<char>) -> Option<Seq<Seq<char>>> {
    if name == "attribute"@ {
        Some(seq!["field"@])
    } else if name == "flag"@ {
        Some(seq!["name"@])
    } else if name == "orientation"@ {
        Some(seq!["selector"@, "directions"@, "negated"@])
    } else if name == "align"@ || name == "cyclic"@ {
        Some(seq!["selector"@, "direction"@, "negated"@])
    } else if name == "group"@ {
        Some(seq!["selector"@, "name"@, "field"@, "group_on"@, "add_to_group"@, "negated"@])
    } else if name == "atom_color"@ {
        Some(seq!["selector"@, "value"@])
    } else if name == "size"@ {
        Some(seq!["selector"@, "height"@, "width"@])
    } else if name == "icon"@ {
        Some(seq!["selector"@, "path"@, "show_labels"@])
    } else if name == "edge_style"@ {
        Some(
            seq![
                "field"@,
                "value"@,
                "selector"@,
                "filter"@,
                "style"@,
                "weight"@,
                "show_label"@,
                "hidden"@,
            ],
        )
    } else if name == "projection"@ {
        Some(seq!["sig"@])
    } else if name == "hide_field"@ {
        Some(seq!["field"@, "selector"@])
    } else if name == "hide_atom"@ {
        Some(seq!["selector"@])
    } else if name == "inferred_edge"@ {
        Some(seq!["name"@, "selector"@])
    } else if name == "tag"@ {
        Some(seq!["to_tag"@, "name"@, "value"@])
    } else {
        None
    }
}

/// The first of `keys` that `known` does not hold.
pub open spec fn first_unknown(keys: Seq<Seq<char>>, known: Seq<Seq<char>>) -> Option<Seq<char>>
    decreases keys.len(),
{
    if keys.len() == 0 {
        None
    } else if !known.contains(keys[0]) {
        Some(keys[0])
    } else {
        first_unknown(keys.drop_first(), known)
    }
}

proof fn lemma_first_unknown_none(keys: Seq<Seq<char>>, known: Seq<Seq<char>>)
    requires
        forall|i: int| 0 <= i < keys.len() ==> #[trigger] known.contains(keys[i]),
    ensures
        first_unknown(keys, known) is None,
    decreases keys.len(),
{
    if keys.len() > 0 {
        assert(known.contains(keys[0]));
        assert forall|i: int| 0 <= i < keys.drop_first().len() implies #[trigger] known.contains(
            keys.drop_first()[i],
        ) by {
            assert(keys.drop_first()[i] == keys[i + 1]);
        }
        lemma_first_unknown_none(keys.drop_first(), known);
    }
}

/// Every key an attribute reads is one it accepts, and no other: a list
/// that uses only the keys an attribute's parser reads (e.g. `selector` and
/// `value` for `#[atom_color]`) is never rejected and reads as that
/// attribute, and a list that starts with any other key is rejected,
/// naming that key and the accepted ones.
pub proof fn lemma_read_keys_accepted(keys: Seq<Seq<char>>, t: Seq<char>, weight_bits: Option<u64>)
    ensures
        (forall|i: int| 0 <= i < keys.len() ==> seq!["field"@].contains(#[trigger] keys[i])) ==> attribute_result(
            "attribute"@,
            keys,
            Some(t),
            weight_bits,
        ) == Ok::<Option<AttributeView>, Seq<char>>(Some(attribute_spec(Some(t)))),
        (forall|i: int| 0 <= i < keys.len() ==> seq!["name"@].contains(#[trigger] keys[i])) ==> attribute_result(
            "flag"@,
            keys,
            Some(t),
            weight_bits,
        ) == Ok::<Option<AttributeView>, Seq<char>>(Some(flag_spec(Some(t)))),
        (forall|i: int| 0 <= i < keys.len() ==> seq!["selector"@, "directions"@, "negated"@].contains(#[trigger] keys[i])) ==> attribute_result(
            "orientation"@,
            keys,
            Some(t),
            weight_bits,
        ) == Ok::<Option<AttributeView>, Seq<char>>(Some(orientation_spec(t))),
        (forall|i: int| 0 <= i < keys.len() ==> seq!["selector"@, "direction"@, "negated"@].contains(#[trigger] keys[i])) ==> attribute_result(
            "align"@,
            keys,
            Some(t),
            weight_bits,
        ) == Ok::<Option<AttributeView>, Seq<char>>(Some(align_spec(t))),
        (forall|i: int| 0 <= i < keys.len() ==> seq!["selector"@, "direction"@, "negated"@].contains(#[trigger] keys[i])) ==> attribute_result(
            "cyclic"@,
            keys,
            Some(t),
            weight_bits,
        ) == Ok::<Option<AttributeView>, Seq<char>>(Some(cyclic_spec(t))),
        (forall|i: int| 0 <= i < keys.len() ==> seq!["selector"@, "name"@, "field"@, "group_on"@, "add_to_group"@, "negated"@].contains(#[trigger] keys[i])) ==> attribute_result(
            "group"@,
            keys,
            Some(t),
            weight_bits,
        ) == Ok::<Option<AttributeView>, Seq<char>>(Some(group_spec(t, keys))),
        (forall|i: int| 0 <= i < keys.len() ==> seq!["selector"@, "value"@].contains(#[trigger] keys[i])) ==> attribute_result(
            "atom_color"@,
            keys,
            Some(t),
            weight_bits,
        ) == Ok::<Option<AttributeView>, Seq<char>>(Some(atom_color_spec(t))),
        (forall|i: int| 0 <= i < keys.len() ==> seq!["selector"@, "height"@, "width"@].contains(#[trigger] keys[i])) ==> attribute_result(
            "size"@,
            keys,
            Some(t),
            weight_bits,
        ) == Ok::<Option<AttributeView>, Seq<char>>(Some(size_spec(t))),
        (forall|i: int| 0 <= i < keys.len() ==> seq!["selector"@, "path"@, "show_labels"@].contains(#[trigger] keys[i])) ==> attribute_result(
            "icon"@,
            keys,
            Some(t),
            weight_bits,
        ) == Ok::<Option<AttributeView>, Seq<char>>(Some(icon_spec(t))),
        (forall|i: int| 0 <= i < keys.len() ==> seq!["field"@, "value"@, "selector"@, "filter"@, "style"@, "weight"@, "show_label"@, "hidden"@].contains(#[trigger] keys[i])) ==> attribute_result(
            "edge_style"@,
            keys,
            Some(t),
            weight_bits,
        ) == Ok::<Option<AttributeView>, Seq<char>>(Some(edge_style_spec(t, weight_bits))),
        (forall|i: int| 0 <= i < keys.len() ==> seq!["sig"@].contains(#[trigger] keys[i])) ==> attribute_result(
            "projection"@,
            keys,
            Some(t),
            weight_bits,
        ) == Ok::<Option<AttributeView>, Seq<char>>(Some(projection_spec(t))),
        (forall|i: int| 0 <= i < keys.len() ==> seq!["field"@, "selector"@].contains(#[trigger] keys[i])) ==> attribute_result(
            "hide_field"@,
            keys,
            Some(t),
            weight_bits,
        ) == Ok::<Option<AttributeView>, Seq<char>>(Some(hide_field_spec(t))),
        (forall|i: int| 0 <= i < keys.len() ==> seq!["selector"@].contains(#[trigger] keys[i])) ==> attribute_result(
            "hide_atom"@,
            keys,
            Some(t),
            weight_bits,
        ) == Ok::<Option<AttributeView>, Seq<char>>(Some(hide_atom_spec(t))),
        (forall|i: int| 0 <= i < keys.len() ==> seq!["name"@, "selector"@].contains(#[trigger] keys[i])) ==> attribute_result(
            "inferred_edge"@,
            keys,
            Some(t),
            weight_bits,
        ) == Ok::<Option<AttributeView>, Seq<char>>(Some(inferred_edge_spec(t))),
        (forall|i: int| 0 <= i < keys.len() ==> seq!["to_tag"@, "name"@, "value"@].contains(#[trigger] keys[i])) ==> attribute_result(
            "tag"@,
            keys,
            Some(t),
            weight_bits,
        ) == Ok::<Option<AttributeView>, Seq<char>>(Some(tag_spec(t))),
        keys.len() > 0 && !seq!["field"@].contains(keys[0]) ==> attribute_result(
            "attribute"@,
            keys,
            Some(t),
            weight_bits,
        ) == Err::<Option<AttributeView>, Seq<char>>(unknown_key_message(keys[0], "attribute"@, seq!["field"@])),
        keys.len() > 0 && !seq!["name"@].contains(keys[0]) ==> attribute_result(
            "flag"@,
            keys,
            Some(t),
            weight_bits,
        ) == Err::<Option<AttributeView>, Seq<char>>(unknown_key_message(keys[0], "flag"@, seq!["name"@])),
        keys.len() > 0 && !seq!["selector"@, "directions"@, "negated"@].contains(keys[0]) ==> attribute_result(
            "orientation"@,
            keys,
            Some(t),
            weight_bits,
        ) == Err::<Option<AttributeView>, Seq<char>>(unknown_key_message(keys[0], "orientation"@, seq!["selector"@, "directions"@, "negated"@])),
        keys.len() > 0 && !seq!["selector"@, "direction"@, "negated"@].contains(keys[0]) ==> attribute_result(
            "align"@,
            keys,
            Some(t),
            weight_bits,
        ) == Err::<Option<AttributeView>, Seq<char>>(unknown_key_message(keys[0], "align"@, seq!["selector"@, "direction"@, "negated"@])),
        keys.len() > 0 && !seq!["selector"@, "direction"@, "negated"@].contains(keys[0]) ==> attribute_result(
            "cyclic"@,
            keys,
            Some(t),
            weight_bits,
        ) == Err::<Option<AttributeView>, Seq<char>>(unknown_key_message(keys[0], "cyclic"@, seq!["selector"@, "direction"@, "negated"@])),
        keys.len() > 0 && !seq!["selector"@, "name"@, "field"@, "group_on"@, "add_to_group"@, "negated"@].contains(keys[0]) ==> attribute_result(
            "group"@,
            keys,
            Some(t),
            weight_bits,
        ) == Err::<Option<AttributeView>, Seq<char>>(unknown_key_message(keys[0], "group"@, seq!["selector"@, "name"@, "field"@, "group_on"@, "add_to_group"@, "negated"@])),
        keys.len() > 0 && !seq!["selector"@, "value"@].contains(keys[0]) ==> attribute_result(
            "atom_color"@,
            keys,
            Some(t),
            weight_bits,
        ) == Err::<Option<AttributeView>, Seq<char>>(unknown_key_message(keys[0], "atom_color"@, seq!["selector"@, "value"@])),
        keys.len() > 0 && !seq!["selector"@, "height"@, "width"@].contains(keys[0]) ==> attribute_result(
            "size"@,
            keys,
            Some(t),
            weight_bits,
        ) == Err::<Option<AttributeView>, Seq<char>>(unknown_key_message(keys[0], "size"@, seq!["selector"@, "height"@, "width"@])),
        keys.len() > 0 && !seq!["selector"@, "path"@, "show_labels"@].contains(keys[0]) ==> attribute_result(
            "icon"@,
            keys,
            Some(t),
            weight_bits,
        ) == Err::<Option<AttributeView>, Seq<char>>(unknown_key_message(keys[0], "icon"@, seq!["selector"@, "path"@, "show_labels"@])),
        keys.len() > 0 && !seq!["field"@, "value"@, "selector"@, "filter"@, "style"@, "weight"@, "show_label"@, "hidden"@].contains(keys[0]) ==> attribute_result(
            "edge_style"@,
            keys,
            Some(t),
            weight_bits,
        ) == Err::<Option<AttributeView>, Seq<char>>(unknown_key_message(keys[0], "edge_style"@, seq!["field"@, "value"@, "selector"@, "filter"@, "style"@, "weight"@, "show_label"@, "hidden"@])),
        keys.len() > 0 && !seq!["sig"@].contains(keys[0]) ==> attribute_result(
            "projection"@,
            keys,
            Some(t),
            weight_bits,
        ) == Err::<Option<AttributeView>, Seq<char>>(unknown_key_message(keys[0], "projection"@, seq!["sig"@])),
        keys.len() > 0 && !seq!["field"@, "selector"@].contains(keys[0]) ==> attribute_result(
            "hide_field"@,
            keys,
            Some(t),
            weight_bits,
        ) == Err::<Option<AttributeView>, Seq<char>>(unknown_key_message(keys[0], "hide_field"@, seq!["field"@, "selector"@])),
        keys.len() > 0 && !seq!["selector"@].contains(keys[0]) ==> attribute_result(
            "hide_atom"@,
            keys,
            Some(t),
            weight_bits,
        ) == Err::<Option<AttributeView>, Seq<char>>(unknown_key_message(keys[0], "hide_atom"@, seq!["selector"@])),
        keys.len() > 0 && !seq!["name"@, "selector"@].contains(keys[0]) ==> attribute_result(
            "inferred_edge"@,
            keys,
            Some(t),
            weight_bits,
        ) == Err::<Option<AttributeView>, Seq<char>>(unknown_key_message(keys[0], "inferred_edge"@, seq!["name"@, "selector"@])),
        keys.len() > 0 && !seq!["to_tag"@, "name"@, "value"@].contains(keys[0]) ==> attribute_result(
            "tag"@,
            keys,
            Some(t),
            weight_bits,
        ) == Err::<Option<AttributeView>, Seq<char>>(unknown_key_message(keys[0], "tag"@, seq!["to_tag"@, "name"@, "value"@])),
{
    reveal_strlit("attribute");
    assert("attribute"@.len() == 9);
    reveal_strlit("flag");
    assert("flag"@.len() == 4);
    reveal_strlit("orientation");
    assert("orientation"@.len() == 11);
    reveal_strlit("align");
    assert("align"@.len() == 5);
    reveal_strlit("cyclic");
    assert("cyclic"@.len() == 6);
    reveal_strlit("group");
    assert("group"@.len() == 5);
        assert("group"@[0] != "align"@[0]);
    reveal_strlit("atom_color");
    assert("atom_color"@.len() == 10);
    reveal_strlit("size");
    assert("size"@.len() == 4);
        assert("size"@[0] != "flag"@[0]);
    reveal_strlit("icon");
    assert("icon"@.len() == 4);
        assert("icon"@[0] != "flag"@[0]);
        assert("icon"@[0] != "size"@[0]);
    reveal_strlit("edge_style");
    assert("edge_style"@.len() == 10);
        assert("edge_style"@[0] != "atom_color"@[0]);
    reveal_strlit("projection");
    assert("projection"@.len() == 10);
        assert("projection"@[0] != "atom_color"@[0]);
        assert("projection"@[0] != "edge_style"@[0]);
    reveal_strlit("hide_field");
    assert("hide_field"@.len() == 10);
        assert("hide_field"@[0] != "atom_color"@[0]);
        assert("hide_field"@[0] != "edge_style"@[0]);
        assert("hide_field"@[0] != "projection"@[0]);
    reveal_strlit("hide_atom");
    assert("hide_atom"@.len() == 9);
        assert("hide_atom"@[0] != "attribute"@[0]);
    reveal_strlit("inferred_edge");
    assert("inferred_edge"@.len() == 13);
    reveal_strlit("tag");
    assert("tag"@.len() == 3);
    if forall|i: int| 0 <= i < keys.len() ==> seq!["field"@].contains(#[trigger] keys[i]) {
        lemma_first_unknown_none(keys, seq!["field"@]);
    }
    if forall|i: int| 0 <= i < keys.len() ==> seq!["name"@].contains(#[trigger] keys[i]) {
        lemma_first_unknown_none(keys, seq!["name"@]);
    }
    if forall|i: int| 0 <= i < keys.len() ==> seq!["selector"@, "directions"@, "negated"@].contains(#[trigger] keys[i]) {
        lemma_first_unknown_none(keys, seq!["selector"@, "directions"@, "negated"@]);
    }
    if forall|i: int| 0 <= i < keys.len() ==> seq!["selector"@, "direction"@, "negated"@].contains(#[trigger] keys[i]) {
        lemma_first_unknown_none(keys, seq!["selector"@, "direction"@, "negated"@]);
    }
    if forall|i: int| 0 <= i < keys.len() ==> seq!["selector"@, "direction"@, "negated"@].contains(#[trigger] keys[i]) {
        lemma_first_unknown_none(keys, seq!["selector"@, "direction"@, "negated"@]);
    }
    if forall|i: int| 0 <= i < keys.len() ==> seq!["selector"@, "name"@, "field"@, "group_on"@, "add_to_group"@, "negated"@].contains(#[trigger] keys[i]) {
        lemma_first_unknown_none(keys, seq!["selector"@, "name"@, "field"@, "group_on"@, "add_to_group"@, "negated"@]);
    }
    if forall|i: int| 0 <= i < keys.len() ==> seq!["selector"@, "value"@].contains(#[trigger] keys[i]) {
        lemma_first_unknown_none(keys, seq!["selector"@, "value"@]);
    }
    if forall|i: int| 0 <= i < keys.len() ==> seq!["selector"@, "height"@, "width"@].contains(#[trigger] keys[i]) {
        lemma_first_unknown_none(keys, seq!["selector"@, "height"@, "width"@]);
    }
    if forall|i: int| 0 <= i < keys.len() ==> seq!["selector"@, "path"@, "show_labels"@].contains(#[trigger] keys[i]) {
        lemma_first_unknown_none(keys, seq!["selector"@, "path"@, "show_labels"@]);
    }
    if forall|i: int| 0 <= i < keys.len() ==> seq!["field"@, "value"@, "selector"@, "filter"@, "style"@, "weight"@, "show_label"@, "hidden"@].contains(#[trigger] keys[i]) {
        lemma_first_unknown_none(keys, seq!["field"@, "value"@, "selector"@, "filter"@, "style"@, "weight"@, "show_label"@, "hidden"@]);
    }
    if forall|i: int| 0 <= i < keys.len() ==> seq!["sig"@].contains(#[trigger] keys[i]) {
        lemma_first_unknown_none(keys, seq!["sig"@]);
    }
    if forall|i: int| 0 <= i < keys.len() ==> seq!["field"@, "selector"@].contains(#[trigger] keys[i]) {
        lemma_first_unknown_none(keys, seq!["field"@, "selector"@]);
    }
    if forall|i: int| 0 <= i < keys.len() ==> seq!["selector"@].contains(#[trigger] keys[i]) {
        lemma_first_unknown_none(keys, seq!["selector"@]);
    }
    if forall|i: int| 0 <= i < keys.len() ==> seq!["name"@, "selector"@].contains(#[trigger] keys[i]) {
        lemma_first_unknown_none(keys, seq!["name"@, "selector"@]);
    }
    if forall|i: int| 0 <= i < keys.len() ==> seq!["to_tag"@, "name"@, "value"@].contains(#[trigger] keys[i]) {
        lemma_first_unknown_none(keys, seq!["to_tag"@, "name"@, "value"@]);
    }
    assert(known_keys("align"@) == Some(seq!["selector"@, "direction"@, "negated"@]));
    assert(known_keys("cyclic"@) == Some(seq!["selector"@, "direction"@, "negated"@]));
    assert(parsed_attribute("align"@, keys, Some(t), weight_bits) == Some(align_spec(t)));
    assert(parsed_attribute("cyclic"@, keys, Some(t), weight_bits) == Some(cyclic_spec(t)));
}

/// `ks` joined by `sep`.
pub open spec fn joined(ks: Seq<Seq<char>>, sep: Seq<char>) -> Seq<char>
    decreases ks.len(),
{
    if ks.len() == 0 {
        Seq::empty()
    } else if ks.len() == 1 {
        ks[0]
    } else {
        joined(ks.drop_last(), sep) + sep + ks.last()
    }
}

/// The message for a key the attribute does not accept.
pub open spec fn unknown_key_message(key: Seq<char>, name: Seq<char>, known: Seq<Seq<char>>) -> Seq<
    char,
> {
    "unknown parameter `"@ + key + "` for #["@ + name + "(...)]; expected one of: "@ + joined(
        known,
        ", "@,
    )
}

fn join_keys(ks: &Vec<String>) -> (r: String)
    ensures
        r@ == joined(strs(ks@), ", "@),
{
    let mut r = String::new();
    let mut i: usize = 0;
    while i < ks.len()
        invariant
            i <= ks@.len(),
            r@ == joined(strs(ks@).take(i as int), ", "@),
        decreases ks.len() - i,
    {
        let ghost t = strs(ks@).take(i + 1);
        assert(t.drop_last() =~= strs(ks@).take(i as int));
        assert(t.last() == ks@[i as int]@);
        if i > 0 {
            r.append(", ");
        } else {
            assert(t.len() == 1);
            assert(r@ =~= Seq::<char>::empty());
        }
        r.append(ks[i].as_str());
        i = i + 1;
    }
    assert(strs(ks@).take(ks@.len() as int) =~= strs(ks@));
    r
}

/// Checks each given key against the keys the attribute `attr_name`
/// accepts; the first key it does not accept is reported.
pub fn validate_known_keys(keys: &Vec<String>, attr_name: &str, known: &Vec<String>) -> (r: Result<
    (),
    String,
>)
    ensures
        match first_unknown(strs(keys@), strs(known@)) {
            None => r is Ok,
            Some(k) => r matches Err(m) && m@ == unknown_key_message(k, attr_name@, strs(known@)),
        },
{
    let mut i: usize = 0;
    assert(strs(keys@).skip(0) =~= strs(keys@));
    while i < keys.len()
        invariant
            i <= keys@.len(),
            first_unknown(strs(keys@), strs(known@)) == first_unknown(strs(keys@).skip(i as int), strs(known@)),
        decreases keys.len() - i,
    {
        let ghost rest = strs(keys@).skip(i as int);
        assert(rest[0] == keys@[i as int]@);
        assert(rest.drop_first() =~= strs(keys@).skip(i + 1));
        let mut found = false;
        let mut j: usize = 0;
        while j < known.len()
            invariant
                j <= known@.len(),
                found == exists|x: int| 0 <= x < j && strs(known@)[x] == keys@[i as int]@,
                i < keys@.len(),
            decreases known.len() - j,
        {
            assert(strs(known@)[j as int] == known@[j as int]@);
            if same_text(known[j].as_str(), keys[i].as_str()) {
                found = true;
            }
            j = j + 1;
        }
        assert(found == strs(known@).contains(keys@[i as int]@));
        if !found {
            let mut m = String::from_str("unknown parameter `");
            m.append(keys[i].as_str());
            m.append("` for #[");
            m.append(attr_name);
            m.append("(...)]; expected one of: ");
            let js = join_keys(known);
            m.append(js.as_str());
            return Err(m);
        }
        i = i + 1;
    }
    assert(strs(keys@).skip(i as int) =~= Seq::<Seq<char>>::empty());
    Ok(())
}


/// The keys attribute `name` accepts, as owned strings.
pub fn known_keys_of(name: &str) -> (r: Option<Vec<String>>)
    ensures
        match known_keys(name@) {
            Some(k) => r matches Some(v) && strs(v@) == k,
            None => r is None,
        },
{
    let v: Vec<&str> = if same_text(name, "attribute") {
        vec!["field"]
    } else if same_text(name, "flag") {
        vec!["name"]
    } else if same_text(name, "orientation") {
        vec!["selector", "directions", "negated"]
    } else if same_text(name, "align") || same_text(name, "cyclic") {
        vec!["selector", "direction", "negated"]
    } else if same_text(name, "group") {
        vec!["selector", "name", "field", "group_on", "add_to_group", "negated"]
    } else if same_text(name, "atom_color") {
        vec!["selector", "value"]
    } else if same_text(name, "size") {
        vec!["selector", "height", "width"]
    } else if same_text(name, "icon") {
        vec!["selector", "path", "show_labels"]
    } else if same_text(name, "edge_style") {
        vec!["field", "value", "selector", "filter", "style", "weight", "show_label", "hidden"]
    } else if same_text(name, "projection") {
        vec!["sig"]
    } else if same_text(name, "hide_field") {
        vec!["field", "selector"]
    } else if same_text(name, "hide_atom") {
        vec!["selector"]
    } else if same_text(name, "inferred_edge") {
        vec!["name", "selector"]
    } else if same_text(name, "tag") {
        vec!["to_tag", "name", "value"]
    } else {
        return None;
    };
    let r = vec_strs(v);
    assert(strs(r@) =~= known_keys(name@)->0);
    Some(r)
}

/// What attribute `name` reads as, from the keys of its list and its token
/// text `t` (none when it has no list): `None` for an attribute that is not
/// a decorator.
pub open spec fn parsed_attribute(
    name: Seq<char>,
    keys: Seq<Seq<char>>,
    t: Option<Seq<char>>,
    weight_bits: Option<u64>,
) -> Option<
    AttributeView,
> {
    if name == "attribute"@ {
        Some(attribute_spec(t))
    } else if name == "flag"@ {
        Some(flag_spec(t))
    } else {
        match t {
            None => None,
            Some(t) => if name == "orientation"@ {
                Some(orientation_spec(t))
            } else if name == "align"@ {
                Some(align_spec(t))
            } else if name == "cyclic"@ {
                Some(cyclic_spec(t))
            } else if name == "group"@ {
                Some(group_spec(t, keys))
            } else if name == "atom_color"@ {
                Some(atom_color_spec(t))
            } else if name == "size"@ {
                Some(size_spec(t))
            } else if name == "icon"@ {
                Some(icon_spec(t))
            } else if name == "edge_style"@ {
                Some(edge_style_spec(t, weight_bits))
            } else if name == "projection"@ {
                Some(projection_spec(t))
            } else if name == "hide_field"@ {
                Some(hide_field_spec(t))
            } else if name == "hide_atom"@ {
                Some(hide_atom_spec(t))
            } else if name == "inferred_edge"@ {
                Some(inferred_edge_spec(t))
            } else if name == "tag"@ {
                Some(tag_spec(t))
            } else {
                None
            },
        }
    }
}

/// What an attribute of a derive input reads as: `Ok(None)` for one that
/// is not a decorator; for a decorator with a list, the first key it does
/// not accept is an error, else its keys are read with their defaults.
pub open spec fn attribute_result(
    name: Seq<char>,
    keys: Seq<Seq<char>>,
    t: Option<Seq<char>>,
    weight_bits: Option<u64>,
) -> Result<Option<AttributeView>, Seq<char>> {
    match known_keys(name) {
        None => Ok(None),
        Some(known) => {
            let bad = if t is Some {
                first_unknown(keys, known)
            } else {
                None
            };
            match bad {
                Some(k) => Err(unknown_key_message(k, name, known)),
                None => Ok(parsed_attribute(name, keys, t, weight_bits)),
            }
        },
    }
}

/// Reads one attribute of a derive input: its name, the keys of its list,
/// the text of its list (`None` when it has none), and the bit pattern of
/// the float its `weight` key gives, if any.
pub fn parse_spatial_attribute(
    name: &str,
    keys: &Vec<String>,
    tokens: Option<&str>,
    weight_bits: Option<u64>,
) -> (r: Result<Option<SpatialAttribute>, String>)
    ensures
        match attribute_result(name@, strs(keys@), opt_str_view(tokens), weight_bits) {
            Ok(a) => r matches Ok(x) && opt_attr(x) == a,
            Err(m) => r matches Err(e) && e@ == m,
        },
{
    let known = match known_keys_of(name) {
        None => return Ok(None),
        Some(k) => k,
    };
    if tokens.is_some() {
        validate_known_keys(keys, name, &known)?;
    }
    let parsed = if same_text(name, "attribute") {
        Some(parse_attribute_args(tokens))
    } else if same_text(name, "flag") {
        Some(parse_flag_args(tokens))
    } else if same_text(name, "orientation") {
        parse_orientation_args(tokens)
    } else if same_text(name, "align") {
        parse_align_args(tokens)
    } else if same_text(name, "cyclic") {
        parse_cyclic_args(tokens)
    } else if same_text(name, "group") {
        parse_group_args(tokens, keys)
    } else if same_text(name, "atom_color") {
        parse_atom_color_args(tokens)
    } else if same_text(name, "size") {
        parse_size_args(tokens)
    } else if same_text(name, "icon") {
        parse_icon_args(tokens)
    } else if same_text(name, "edge_style") {
        parse_edge_style_args(tokens, weight_bits)
    } else if same_text(name, "projection") {
        parse_projection_args(tokens)
    } else if same_text(name, "hide_field") {
        parse_hide_field_args(tokens)
    } else if same_text(name, "hide_atom") {
        parse_hide_atom_args(tokens)
    } else if same_text(name, "inferred_edge") {
        parse_inferred_edge_args(tokens)
    } else {
        parse_tag_args(tokens)
    };
    Ok(parsed)
}

// ---------------------------------------------------------------------------
// Field types whose decorators a derived type includes
// ---------------------------------------------------------------------------

/// A field's type, as far as the walk reads it: a path with the name of its
/// last segment and its first generic argument when that is a type, or any
/// other type.
pub enum FieldType {
    Path { name: String, arg: Option<Box<FieldType>> },
    Other,
}

/// A wrapper the walk looks through to its first type argument.
pub open spec fn is_container(n: Seq<char>) -> bool {
    n == "Vec"@ || n == "Option"@ || n == "Box"@ || n == "Rc"@ || n == "Arc"@ || n == "RefCell"@
        || n == "Cell"@ || n == "VecDeque"@ || n == "LinkedList"@
}

/// A primitive or standard collection, which never has decorators.
pub open spec fn is_plain(n: Seq<char>) -> bool {
    n == "i8"@ || n == "i16"@ || n == "i32"@ || n == "i64"@ || n == "i128"@ || n == "isize"@ || n
        == "u8"@ || n == "u16"@ || n == "u32"@ || n == "u64"@ || n == "u128"@ || n == "usize"@ || n
        == "f32"@ || n == "f64"@ || n == "bool"@ || n == "char"@ || n == "String"@ || n == "str"@
        || n == "Result"@ || n == "HashMap"@ || n == "HashSet"@ || n == "BTreeMap"@ || n
        == "BTreeSet"@
}

/// The type a field's decorators are probed from: through wrappers to the
/// innermost named type, none for primitives, standard collections and
/// other types.
pub open spec fn probe_target(t: FieldType) -> Option<Seq<char>>
    decreases t,
{
    match t {
        FieldType::Other => None,
        FieldType::Path { name, arg } => if is_container(name@) {
            match arg {
                Some(inner) => probe_target(*inner),
                None => None,
            }
        } else if is_plain(name@) {
            None
        } else {
            Some(name@)
        },
    }
}

fn is_container_name(n: &str) -> (r: bool)
    ensures
        r == is_container(n@),
{
    same_text(n, "Vec") || same_text(n, "Option") || same_text(n, "Box") || same_text(n, "Rc")
        || same_text(n, "Arc") || same_text(n, "RefCell") || same_text(n, "Cell") || same_text(
        n,
        "VecDeque",
    ) || same_text(n, "LinkedList")
}

fn is_plain_name(n: &str) -> (r: bool)
    ensures
        r == is_plain(n@),
{
    same_text(n, "i8") || same_text(n, "i16") || same_text(n, "i32") || same_text(n, "i64")
        || same_text(n, "i128") || same_text(n, "isize") || same_text(n, "u8") || same_text(n, "u16")
        || same_text(n, "u32") || same_text(n, "u64") || same_text(n, "u128") || same_text(n, "usize")
        || same_text(n, "f32") || same_text(n, "f64") || same_text(n, "bool") || same_text(n, "char")
        || same_text(n, "String") || same_text(n, "str") || same_text(n, "Result") || same_text(
        n,
        "HashMap",
    ) || same_text(n, "HashSet") || same_text(n, "BTreeMap") || same_text(n, "BTreeSet")
}

/// The walk looks through every standard wrapper (`Vec`, `Option`, `Box`,
/// `Rc`, `Arc`, `RefCell`, `Cell`, `VecDeque`, `LinkedList`): `W<T>` is
/// probed exactly as `T` is, so a decorated type behind any of them is
/// found. A primitive or a standard collection of plain values is never
/// probed, and a wrapper without a type argument gives nothing.
pub proof fn lemma_wrappers_looked_through(name: String, inner: FieldType)
    ensures
        (name@ == "Vec"@ || name@ == "Option"@ || name@ == "Box"@ || name@ == "Rc"@ || name@ == "Arc"@ || name@ == "RefCell"@ || name@ == "Cell"@ || name@ == "VecDeque"@ || name@ == "LinkedList"@) ==> probe_target(
            FieldType::Path { name, arg: Some(Box::new(inner)) },
        ) == probe_target(inner),
        (name@ == "Vec"@ || name@ == "Option"@ || name@ == "Box"@ || name@ == "Rc"@ || name@ == "Arc"@ || name@ == "RefCell"@ || name@ == "Cell"@ || name@ == "VecDeque"@ || name@ == "LinkedList"@) ==> probe_target(FieldType::Path { name, arg: None }) is None,
        (name@ == "i8"@ || name@ == "i16"@ || name@ == "i32"@ || name@ == "i64"@ || name@ == "i128"@ || name@ == "isize"@ || name@ == "u8"@ || name@ == "u16"@ || name@ == "u32"@ || name@ == "u64"@ || name@ == "u128"@ || name@ == "usize"@ || name@ == "f32"@ || name@ == "f64"@ || name@ == "bool"@ || name@ == "char"@ || name@ == "String"@ || name@ == "str"@ || name@ == "Result"@ || name@ == "HashMap"@ || name@ == "HashSet"@ || name@ == "BTreeMap"@ || name@ == "BTreeSet"@) ==> probe_target(
            FieldType::Path { name, arg: Some(Box::new(inner)) },
        ) is None,
{
    reveal_strlit("Vec");
    assert("Vec"@.len() == 3);
    reveal_strlit("Option");
    assert("Option"@.len() == 6);
    reveal_strlit("Box");
    assert("Box"@.len() == 3);
    reveal_strlit("Rc");
    assert("Rc"@.len() == 2);
    reveal_strlit("Arc");
    assert("Arc"@.len() == 3);
    reveal_strlit("RefCell");
    assert("RefCell"@.len() == 7);
    reveal_strlit("Cell");
    assert("Cell"@.len() == 4);
    reveal_strlit("VecDeque");
    assert("VecDeque"@.len() == 8);
    reveal_strlit("LinkedList");
    assert("LinkedList"@.len() == 10);
    reveal_strlit("i8");
    assert("i8"@.len() == 2);
    reveal_strlit("i16");
    assert("i16"@.len() == 3);
    reveal_strlit("i32");
    assert("i32"@.len() == 3);
    reveal_strlit("i64");
    assert("i64"@.len() == 3);
    reveal_strlit("i128");
    assert("i128"@.len() == 4);
    reveal_strlit("isize");
    assert("isize"@.len() == 5);
    reveal_strlit("u8");
    assert("u8"@.len() == 2);
    reveal_strlit("u16");
    assert("u16"@.len() == 3);
    reveal_strlit("u32");
    assert("u32"@.len() == 3);
    reveal_strlit("u64");
    assert("u64"@.len() == 3);
    reveal_strlit("u128");
    assert("u128"@.len() == 4);
    reveal_strlit("usize");
    assert("usize"@.len() == 5);
    reveal_strlit("f32");
    assert("f32"@.len() == 3);
    reveal_strlit("f64");
    assert("f64"@.len() == 3);
    reveal_strlit("bool");
    assert("bool"@.len() == 4);
    reveal_strlit("char");
    assert("char"@.len() == 4);
    reveal_strlit("String");
    assert("String"@.len() == 6);
    reveal_strlit("str");
    assert("str"@.len() == 3);
    reveal_strlit("Result");
    assert("Result"@.len() == 6);
    reveal_strlit("HashMap");
    assert("HashMap"@.len() == 7);
    reveal_strlit("HashSet");
    assert("HashSet"@.len() == 7);
    reveal_strlit("BTreeMap");
    assert("BTreeMap"@.len() == 8);
    reveal_strlit("BTreeSet");
    assert("BTreeSet"@.len() == 8);
    assert("i8"@[0] != "Rc"@[0]);
    assert("i16"@[0] != "Vec"@[0]);
    assert("i16"@[0] != "Box"@[0]);
    assert("i16"@[0] != "Arc"@[0]);
    assert("i32"@[0] != "Vec"@[0]);
    assert("i32"@[0] != "Box"@[0]);
    assert("i32"@[0] != "Arc"@[0]);
    assert("i64"@[0] != "Vec"@[0]);
    assert("i64"@[0] != "Box"@[0]);
    assert("i64"@[0] != "Arc"@[0]);
    assert("i128"@[0] != "Cell"@[0]);
    assert("u8"@[0] != "Rc"@[0]);
    assert("u16"@[0] != "Vec"@[0]);
    assert("u16"@[0] != "Box"@[0]);
    assert("u16"@[0] != "Arc"@[0]);
    assert("u32"@[0] != "Vec"@[0]);
    assert("u32"@[0] != "Box"@[0]);
    assert("u32"@[0] != "Arc"@[0]);
    assert("u64"@[0] != "Vec"@[0]);
    assert("u64"@[0] != "Box"@[0]);
    assert("u64"@[0] != "Arc"@[0]);
    assert("u128"@[0] != "Cell"@[0]);
    assert("f32"@[0] != "Vec"@[0]);
    assert("f32"@[0] != "Box"@[0]);
    assert("f32"@[0] != "Arc"@[0]);
    assert("f64"@[0] != "Vec"@[0]);
    assert("f64"@[0] != "Box"@[0]);
    assert("f64"@[0] != "Arc"@[0]);
    assert("bool"@[0] != "Cell"@[0]);
    assert("char"@[0] != "Cell"@[0]);
    assert("String"@[0] != "Option"@[0]);
    assert("str"@[0] != "Vec"@[0]);
    assert("str"@[0] != "Box"@[0]);
    assert("str"@[0] != "Arc"@[0]);
    assert("Result"@[0] != "Option"@[0]);
    assert("HashMap"@[0] != "RefCell"@[0]);
    assert("HashSet"@[0] != "RefCell"@[0]);
    assert("BTreeMap"@[0] != "VecDeque"@[0]);
    assert("BTreeSet"@[0] != "VecDeque"@[0]);
}

/// The type the decorators of a field of type `t` are probed from.
pub fn analyze_inner_type(t: &FieldType) -> (r: Option<String>)
    ensures
        opt_text(r) == probe_target(*t),
    decreases t,
{
    match t {
        FieldType::Other => None,
        FieldType::Path { name, arg } => {
            if is_container_name(name.as_str()) {
                match arg {
                    Some(inner) => analyze_inner_type(inner),
                    None => None,
                }
            } else if is_plain_name(name.as_str()) {
                None
            } else {
                Some(name.clone())
            }
        },
    }
}

/// The type names the derive probes for the fields `fields`, in field
/// order, each once, none of them in `seen`.
pub open spec fn probe_targets(fields: Seq<FieldType>, seen: Seq<Seq<char>>) -> Seq<Seq<char>>
    decreases fields.len(),
{
    if fields.len() == 0 {
        Seq::empty()
    } else {
        let prev = probe_targets(fields.drop_last(), seen);
        match probe_target(fields.last()) {
            Some(n) => if seen.contains(n) || prev.contains(n) {
                prev
            } else {
                prev.push(n)
            },
            None => prev,
        }
    }
}

/// The types a derived type probes are each probed once, never one already
/// seen (such as the type itself), and are exactly the probe targets of its
/// fields that were not seen.
pub proof fn lemma_probe_targets(fields: Seq<FieldType>, seen: Seq<Seq<char>>)
    ensures
        probe_targets(fields, seen).no_duplicates(),
        forall|n: Seq<char>| #[trigger] probe_targets(fields, seen).contains(n) ==> !seen.contains(n),
        forall|n: Seq<char>|
            #[trigger] probe_targets(fields, seen).contains(n) <==> (!seen.contains(n) && exists|i: int|
                0 <= i < fields.len() && #[trigger] probe_target(fields[i]) == Some(n)),
    decreases fields.len(),
{
    if fields.len() > 0 {
        let init = fields.drop_last();
        lemma_probe_targets(init, seen);
        let prev = probe_targets(init, seen);
        let cur = probe_targets(fields, seen);
        assert forall|n: Seq<char>| #[trigger] cur.contains(n) <==> (!seen.contains(n) && exists|i: int|
            0 <= i < fields.len() && #[trigger] probe_target(fields[i]) == Some(n)) by {
            if cur.contains(n) {
                let k = choose|k: int| 0 <= k < cur.len() && cur[k] == n;
                if k < prev.len() && cur[k] == prev[k] {
                    assert(prev.contains(n));
                    let i = choose|i: int| 0 <= i < init.len() && probe_target(init[i]) == Some(n);
                    assert(fields[i] == init[i]);
                } else {
                    assert(probe_target(fields[fields.len() - 1]) == Some(n));
                }
            }
            if !seen.contains(n) && exists|i: int|
                0 <= i < fields.len() && #[trigger] probe_target(fields[i]) == Some(n) {
                let i = choose|i: int| 0 <= i < fields.len() && probe_target(fields[i]) == Some(n);
                if i < fields.len() - 1 {
                    assert(init[i] == fields[i]);
                    assert(prev.contains(n));
                    let k = choose|k: int| 0 <= k < prev.len() && prev[k] == n;
                    assert(cur[k] == n);
                } else {
                    if prev.contains(n) {
                        let k = choose|k: int| 0 <= k < prev.len() && prev[k] == n;
                        assert(cur[k] == n);
                    } else {
                        assert(cur[cur.len() - 1] == n);
                    }
                }
            }
        }
    }
}


/// The probe for a field of type `t`: its target, when `seen` does not
/// hold it yet, which it then does.
pub fn analyze_field_type(t: &FieldType, seen: &mut Vec<String>) -> (r: Vec<String>)
    ensures
        match probe_target(*t) {
            Some(n) => if strs(old(seen)@).contains(n) {
                r@.len() == 0 && final(seen)@ == old(seen)@
            } else {
                strs(r@) == seq![n] && strs(final(seen)@) == strs(old(seen)@).push(n)
            },
            None => r@.len() == 0 && final(seen)@ == old(seen)@,
        },
{
    let mut out: Vec<String> = Vec::new();
    match analyze_inner_type(t) {
        Some(n) => {
            let mut found = false;
            let mut i: usize = 0;
            while i < seen.len()
                invariant
                    i <= seen@.len(),
                    found == exists|x: int| 0 <= x < i && strs(seen@)[x] == n@,
                decreases seen.len() - i,
            {
                assert(strs(seen@)[i as int] == seen@[i as int]@);
                if same_text(seen[i].as_str(), n.as_str()) {
                    found = true;
                }
                i = i + 1;
            }
            assert(found == strs(seen@).contains(n@));
            if !found {
                let ghost before = seen@;
                seen.push(n.clone());
                assert(strs(seen@) =~= strs(before).push(n@));
                out.push(n);
                assert(strs(out@) =~= seq![n@]);
            }
        },
        None => {},
    }
    out
}

/// The type names whose decorators a derived struct named `self_name`
/// includes, one per field type that can carry decorators, in field order,
/// each once, its own name never.
pub fn collect_field_type_decorators(fields: &Vec<FieldType>, self_name: &str) -> (r: Vec<String>)
    ensures
        strs(r@) == probe_targets(fields@, seq![self_name@]),
{
    let mut seen: Vec<String> = Vec::new();
    seen.push(String::from_str(self_name));
    let mut out: Vec<String> = Vec::new();
    let mut i: usize = 0;
    assert(fields@.take(0) =~= Seq::<FieldType>::empty());
    assert(strs(seen@) =~= seq![self_name@] + strs(out@));
    while i < fields.len()
        invariant
            i <= fields@.len(),
            strs(out@) == probe_targets(fields@.take(i as int), seq![self_name@]),
            strs(seen@) == seq![self_name@] + strs(out@),
        decreases fields.len() - i,
    {
        let ghost ft = fields@.take(i + 1);
        assert(ft.drop_last() =~= fields@.take(i as int));
        assert(ft.last() == fields@[i as int]);
        let ghost prev = strs(out@);
        let got = analyze_field_type(&fields[i], &mut seen);
        proof {
            match probe_target(fields@[i as int]) {
                Some(n) => {
                    assert((seq![self_name@] + prev).contains(n) == (seq![self_name@].contains(n)
                        || prev.contains(n))) by {
                        if (seq![self_name@] + prev).contains(n) {
                            let k = choose|k: int| 0 <= k < (seq![self_name@] + prev).len() && (seq![self_name@] + prev)[k] == n;
                            if k >= 1 {
                                assert(prev[k - 1] == n);
                            }
                        }
                        if prev.contains(n) {
                            let k = choose|k: int| 0 <= k < prev.len() && prev[k] == n;
                            assert((seq![self_name@] + prev)[k + 1] == n);
                        }
                        if seq![self_name@].contains(n) {
                            assert((seq![self_name@] + prev)[0] == n);
                        }
                    }
                },
                None => {},
            }
        }
        let ghost before = out@;
        let ghost g = got@;
        let mut got = got;
        out.append(&mut got);
        assert(out@ =~= before + g);
        assert(strs(out@) =~= strs(before) + strs(g));
        assert(strs(seen@) =~= seq![self_name@] + strs(out@));
        i = i + 1;
    }
    assert(fields@.take(fields@.len() as int) =~= fields@);
    out
}

} // verus!
