//! The productions of the COS grammar.  Each production is stated as a
//! function of the input bytes and a position that gives the tokens it
//! recognizes there, and recognized by a scanner proved against that function.
//!
//! The productions, in the order in which a node tries them:
//! array, reference, string, name, integer, real, boolean, dictionary.
//! Whitespace may stand between the parts of an array, a reference, a
//! dictionary and a key pair, and nowhere inside the other productions.

use vstd::prelude::*;
use crate::lex::{
    boolean_at, float_at, int_at, key_at, same_end, scan_boolean, scan_float, scan_int, scan_key,
    scan_string, skip_whitespace, skip_ws, string_at,
};

verus! {

/// The productions that leave a token.
#[derive(Clone, Copy, Debug, PartialEq, Eq, Structural)]
pub enum Rule {
    Dictionary,
    BeginDict,
    EndDict,
    BeginArray,
    EndArray,
    Keypair,
    Array,
    Reference,
    Key,
    Str,
    Integer,
    Float,
    Boolean,
}

/// One node of the parse tree: the production and the bytes it spans.  A
/// parse tree is the sequence of its nodes, each before its children.
#[derive(Clone, Copy, Debug, PartialEq, Eq, Structural)]
pub struct Token {
    pub rule: Rule,
    pub start: usize,
    pub end: usize,
}

impl Token {
    /// The token of `rule` over the bytes from `start` to `end`.
    pub fn new(rule: Rule, start: usize, end: usize) -> (t: Token)
        ensures
            t == (Token { rule, start, end }),
    {
        Token { rule, start, end }
    }
}

/// The deepest nesting of arrays and dictionaries that the recognizer follows.
pub const MAX_DEPTH: usize = 64;

/// The token of `rule` over the bytes from `start` to `end`.
pub open spec fn tok(rule: Rule, start: int, end: int) -> Token {
    Token { rule, start: start as usize, end: end as usize }
}

/// What a production finds at a position.
pub ghost enum Outcome {
    /// It matches up to `end` and leaves `tokens`.
    Match { tokens: Seq<Token>, end: int },
    /// It does not match.
    NoMatch,
    /// Deciding it would take nesting deeper than allowed.
    TooDeep,
}

/// What a repetition finds: the tokens of its items, and the position, behind
/// the whitespace after the last item, at which the closing delimiter is due.
pub ghost struct Run {
    pub tokens: Seq<Token>,
    pub end: int,
    pub too_deep: bool,
}

/// A production without parts: one token where it matches.
pub open spec fn leaf(rule: Rule, pos: int, end: Option<int>) -> Outcome {
    match end {
        Some(e) => Outcome::Match { tokens: seq![tok(rule, pos, e)], end: e },
        None => Outcome::NoMatch,
    }
}

/// reference: integer, integer, `R`.
pub open spec fn reference_at(s: Seq<u8>, pos: int) -> Outcome {
    match int_at(s, pos) {
        None => Outcome::NoMatch,
        Some(first_end) => {
            let second = skip_ws(s, first_end);
            match int_at(s, second) {
                None => Outcome::NoMatch,
                Some(second_end) => {
                    let third = skip_ws(s, second_end);
                    if 0 <= third < s.len() && s[third] == 0x52 {
                        Outcome::Match {
                            tokens: seq![
                                tok(Rule::Reference, pos, third + 1),
                                tok(Rule::Integer, pos, first_end),
                                tok(Rule::Integer, second, second_end),
                            ],
                            end: third + 1,
                        }
                    } else {
                        Outcome::NoMatch
                    }
                },
            }
        },
    }
}

/// array: `[`, nodes, `]`.
pub open spec fn array_at(s: Seq<u8>, pos: int, depth: nat) -> Outcome
    decreases depth, 0int,
{
    if !(0 <= pos < s.len() && s[pos] == 0x5b) {
        Outcome::NoMatch
    } else if depth == 0 {
        Outcome::TooDeep
    } else {
        let run = items_from(s, skip_ws(s, pos + 1), (depth - 1) as nat);
        if run.too_deep {
            Outcome::TooDeep
        } else if 0 <= run.end < s.len() && s[run.end] == 0x5d {
            Outcome::Match {
                tokens: seq![tok(Rule::Array, pos, run.end + 1), tok(Rule::BeginArray, pos, pos + 1)]
                    + run.tokens + seq![tok(Rule::EndArray, run.end, run.end + 1)],
                end: run.end + 1,
            }
        } else {
            Outcome::NoMatch
        }
    }
}

/// dictionary: `<<`, key pairs, `>>`.
pub open spec fn dictionary_at(s: Seq<u8>, pos: int, depth: nat) -> Outcome
    decreases depth, 0int,
{
    if !(0 <= pos && pos + 1 < s.len() && s[pos] == 0x3c && s[pos + 1] == 0x3c) {
        Outcome::NoMatch
    } else if depth == 0 {
        Outcome::TooDeep
    } else {
        let run = pairs_from(s, skip_ws(s, pos + 2), (depth - 1) as nat);
        if run.too_deep {
            Outcome::TooDeep
        } else if 0 <= run.end && run.end + 1 < s.len() && s[run.end] == 0x3e && s[run.end + 1]
            == 0x3e {
            Outcome::Match {
                tokens: seq![
                    tok(Rule::Dictionary, pos, run.end + 2),
                    tok(Rule::BeginDict, pos, pos + 2),
                ] + run.tokens + seq![tok(Rule::EndDict, run.end, run.end + 2)],
                end: run.end + 2,
            }
        } else {
            Outcome::NoMatch
        }
    }
}

/// node: the first of the eight productions that matches.
pub open spec fn node_at(s: Seq<u8>, pos: int, depth: nat) -> Outcome
    decreases depth, 1int,
{
    let array = array_at(s, pos, depth);
    if !(array is NoMatch) {
        array
    } else if reference_at(s, pos) is Match {
        reference_at(s, pos)
    } else if string_at(s, pos) is Some {
        leaf(Rule::Str, pos, string_at(s, pos))
    } else if key_at(s, pos) is Some {
        leaf(Rule::Key, pos, key_at(s, pos))
    } else if int_at(s, pos) is Some {
        leaf(Rule::Integer, pos, int_at(s, pos))
    } else if float_at(s, pos) is Some {
        leaf(Rule::Float, pos, float_at(s, pos))
    } else if boolean_at(s, pos) is Some {
        leaf(Rule::Boolean, pos, boolean_at(s, pos))
    } else {
        dictionary_at(s, pos, depth)
    }
}

/// keypair: a name and a node.
pub open spec fn keypair_at(s: Seq<u8>, pos: int, depth: nat) -> Outcome
    decreases depth, 2int,
{
    match key_at(s, pos) {
        None => Outcome::NoMatch,
        Some(ke) => match node_at(s, skip_ws(s, ke), depth) {
            Outcome::Match { tokens, end } => Outcome::Match {
                tokens: seq![tok(Rule::Keypair, pos, end), tok(Rule::Key, pos, ke)] + tokens,
                end,
            },
            Outcome::NoMatch => Outcome::NoMatch,
            Outcome::TooDeep => Outcome::TooDeep,
        },
    }
}

/// Zero or more nodes from `pos`, a position behind whitespace.
pub open spec fn items_from(s: Seq<u8>, pos: int, depth: nat) -> Run
    decreases depth, 3 + s.len() - pos,
{
    if !(0 <= pos <= s.len()) {
        Run { tokens: seq![], end: pos, too_deep: false }
    } else {
        match node_at(s, pos, depth) {
            Outcome::TooDeep => Run { tokens: seq![], end: pos, too_deep: true },
            Outcome::NoMatch => Run { tokens: seq![], end: pos, too_deep: false },
            Outcome::Match { tokens, end } => {
                let next = skip_ws(s, end);
                if pos < next <= s.len() {
                    let rest = items_from(s, next, depth);
                    Run { tokens: tokens + rest.tokens, end: rest.end, too_deep: rest.too_deep }
                } else {
                    Run { tokens: seq![], end: pos, too_deep: false }
                }
            },
        }
    }
}

/// Zero or more key pairs from `pos`, a position behind whitespace.
pub open spec fn pairs_from(s: Seq<u8>, pos: int, depth: nat) -> Run
    decreases depth, 3 + s.len() - pos,
{
    if !(0 <= pos <= s.len()) {
        Run { tokens: seq![], end: pos, too_deep: false }
    } else {
        match keypair_at(s, pos, depth) {
            Outcome::TooDeep => Run { tokens: seq![], end: pos, too_deep: true },
            Outcome::NoMatch => Run { tokens: seq![], end: pos, too_deep: false },
            Outcome::Match { tokens, end } => {
                let next = skip_ws(s, end);
                if pos < next <= s.len() {
                    let rest = pairs_from(s, next, depth);
                    Run { tokens: tokens + rest.tokens, end: rest.end, too_deep: rest.too_deep }
                } else {
                    Run { tokens: seq![], end: pos, too_deep: false }
                }
            },
        }
    }
}

/// What a scanner reports.
#[derive(Clone, Copy, Debug, PartialEq, Eq, Structural)]
pub enum Scan {
    /// The production matches up to this position.
    Match(usize),
    NoMatch,
    TooDeep,
}

/// The scanner's report and the tokens it left are what the production gives.
pub open spec fn scan_agrees(r: Scan, o: Outcome, before: Seq<Token>, after: Seq<Token>) -> bool {
    match o {
        Outcome::Match { tokens, end } => (r matches Scan::Match(e) && e as int == end) && after
            == before + tokens,
        Outcome::NoMatch => r == Scan::NoMatch && after == before,
        Outcome::TooDeep => r == Scan::TooDeep && after == before,
    }
}

/// Pushes the token of a production without parts.
fn recognize_leaf(rule: Rule, pos: usize, end: Option<usize>, out: &mut Vec<Token>) -> (r: Scan)
    ensures
        forall|w: Option<int>|
            same_end(end, w) ==> scan_agrees(r, #[trigger] leaf(rule, pos as int, w), old(out)@, final(out)@),
{
    match end {
        Some(e) => {
            out.push(Token { rule, start: pos, end: e });
            assert(final(out)@ =~= old(out)@ + seq![tok(rule, pos as int, e as int)]);
            Scan::Match(e)
        },
        None => Scan::NoMatch,
    }
}

/// Recognizes a reference at `pos`.
pub fn recognize_reference(input: &[u8], pos: usize, out: &mut Vec<Token>) -> (r: Scan)
    ensures
        scan_agrees(r, reference_at(input@, pos as int), old(out)@, final(out)@),
        r matches Scan::Match(e) ==> pos < e <= input.len(),
{
    let first_end = match scan_int(input, pos) {
        Some(e) => e,
        None => {
            return Scan::NoMatch;
        },
    };
    let second = skip_whitespace(input, first_end);
    let second_end = match scan_int(input, second) {
        Some(e) => e,
        None => {
            return Scan::NoMatch;
        },
    };
    let third = skip_whitespace(input, second_end);
    if third < input.len() && input[third] == 0x52 {
        out.push(Token { rule: Rule::Reference, start: pos, end: third + 1 });
        out.push(Token { rule: Rule::Integer, start: pos, end: first_end });
        out.push(Token { rule: Rule::Integer, start: second, end: second_end });
        assert(final(out)@ =~= old(out)@ + seq![
            tok(Rule::Reference, pos as int, third + 1),
            tok(Rule::Integer, pos as int, first_end as int),
            tok(Rule::Integer, second as int, second_end as int),
        ]);
        Scan::Match(third + 1)
    } else {
        Scan::NoMatch
    }
}

/// Recognizes an array at `pos`, with `depth` levels of nesting left.
pub fn recognize_array(input: &[u8], pos: usize, depth: usize, out: &mut Vec<Token>) -> (r: Scan)
    ensures
        scan_agrees(r, array_at(input@, pos as int, depth as nat), old(out)@, final(out)@),
        r matches Scan::Match(e) ==> pos < e <= input.len(),
    decreases depth, 0int,
{
    if pos >= input.len() || input[pos] != 0x5b {
        return Scan::NoMatch;
    }
    if depth == 0 {
        return Scan::TooDeep;
    }
    let start = skip_whitespace(input, pos + 1);
    let mut inner: Vec<Token> = Vec::new();
    let end = match recognize_items(input, start, depth - 1, &mut inner) {
        Some(e) => e,
        None => {
            return Scan::TooDeep;
        },
    };
    if end < input.len() && input[end] == 0x5d {
        out.push(Token { rule: Rule::Array, start: pos, end: end + 1 });
        out.push(Token { rule: Rule::BeginArray, start: pos, end: pos + 1 });
        out.append(&mut inner);
        out.push(Token { rule: Rule::EndArray, start: end, end: end + 1 });
        assert(final(out)@ =~= old(out)@ + (seq![
            tok(Rule::Array, pos as int, end + 1),
            tok(Rule::BeginArray, pos as int, pos + 1),
        ] + items_from(input@, start as int, (depth - 1) as nat).tokens + seq![
            tok(Rule::EndArray, end as int, end + 1),
        ]));
        Scan::Match(end + 1)
    } else {
        Scan::NoMatch
    }
}

/// Recognizes a dictionary at `pos`, with `depth` levels of nesting left.
pub fn recognize_dictionary(input: &[u8], pos: usize, depth: usize, out: &mut Vec<Token>) -> (r:
    Scan)
    ensures
        scan_agrees(r, dictionary_at(input@, pos as int, depth as nat), old(out)@, final(out)@),
        r matches Scan::Match(e) ==> pos < e <= input.len(),
    decreases depth, 0int,
{
    if pos >= input.len() || pos + 1 >= input.len() || input[pos] != 0x3c || input[pos + 1]
        != 0x3c {
        return Scan::NoMatch;
    }
    if depth == 0 {
        return Scan::TooDeep;
    }
    let start = skip_whitespace(input, pos + 2);
    let mut inner: Vec<Token> = Vec::new();
    let end = match recognize_pairs(input, start, depth - 1, &mut inner) {
        Some(e) => e,
        None => {
            return Scan::TooDeep;
        },
    };
    if end < input.len() && end + 1 < input.len() && input[end] == 0x3e && input[end + 1]
        == 0x3e {
        out.push(Token { rule: Rule::Dictionary, start: pos, end: end + 2 });
        out.push(Token { rule: Rule::BeginDict, start: pos, end: pos + 2 });
        out.append(&mut inner);
        out.push(Token { rule: Rule::EndDict, start: end, end: end + 2 });
        assert(final(out)@ =~= old(out)@ + (seq![
            tok(Rule::Dictionary, pos as int, end + 2),
            tok(Rule::BeginDict, pos as int, pos + 2),
        ] + pairs_from(input@, start as int, (depth - 1) as nat).tokens + seq![
            tok(Rule::EndDict, end as int, end + 2),
        ]));
        Scan::Match(end + 2)
    } else {
        Scan::NoMatch
    }
}

/// Recognizes a node at `pos`, with `depth` levels of nesting left.
pub fn recognize_node(input: &[u8], pos: usize, depth: usize, out: &mut Vec<Token>) -> (r: Scan)
    ensures
        scan_agrees(r, node_at(input@, pos as int, depth as nat), old(out)@, final(out)@),
        r matches Scan::Match(e) ==> pos < e <= input.len(),
    decreases depth, 1int,
{
    let array = recognize_array(input, pos, depth, out);
    match array {
        Scan::NoMatch => {},
        _ => {
            return array;
        },
    }
    let reference = recognize_reference(input, pos, out);
    match reference {
        Scan::Match(_) => {
            return reference;
        },
        _ => {},
    }
    let string = scan_string(input, pos);
    if string.is_some() {
        return recognize_leaf(Rule::Str, pos, string, out);
    }
    let key = scan_key(input, pos);
    if key.is_some() {
        return recognize_leaf(Rule::Key, pos, key, out);
    }
    let integer = scan_int(input, pos);
    if integer.is_some() {
        return recognize_leaf(Rule::Integer, pos, integer, out);
    }
    let fraction = scan_float(input, pos);
    if fraction.is_some() {
        return recognize_leaf(Rule::Float, pos, fraction, out);
    }
    let boolean = scan_boolean(input, pos);
    if boolean.is_some() {
        return recognize_leaf(Rule::Boolean, pos, boolean, out);
    }
    recognize_dictionary(input, pos, depth, out)
}

/// Recognizes a key pair at `pos`, with `depth` levels of nesting left.
pub fn recognize_keypair(input: &[u8], pos: usize, depth: usize, out: &mut Vec<Token>) -> (r: Scan)
    ensures
        scan_agrees(r, keypair_at(input@, pos as int, depth as nat), old(out)@, final(out)@),
        r matches Scan::Match(e) ==> pos < e <= input.len(),
    decreases depth, 2int,
{
    let ke = match scan_key(input, pos) {
        Some(e) => e,
        None => {
            return Scan::NoMatch;
        },
    };
    let start = skip_whitespace(input, ke);
    let mut inner: Vec<Token> = Vec::new();
    match recognize_node(input, start, depth, &mut inner) {
        Scan::Match(end) => {
            out.push(Token { rule: Rule::Keypair, start: pos, end });
            out.push(Token { rule: Rule::Key, start: pos, end: ke });
            out.append(&mut inner);
            assert(final(out)@ =~= old(out)@ + (seq![
                tok(Rule::Keypair, pos as int, end as int),
                tok(Rule::Key, pos as int, ke as int),
            ] + node_at(input@, start as int, depth as nat)->tokens));
            Scan::Match(end)
        },
        Scan::NoMatch => Scan::NoMatch,
        Scan::TooDeep => Scan::TooDeep,
    }
}

/// What a scanner of a repetition reports and leaves: `None` where the
/// nesting is too deep, else the position at which the closing delimiter is due.
pub open spec fn run_agrees(r: Option<usize>, run: Run, before: Seq<Token>, after: Seq<Token>) -> bool {
    if run.too_deep {
        r is None
    } else {
        (r matches Some(e) && e as int == run.end) && after == before + run.tokens
    }
}

/// Recognizes zero or more nodes from `pos`.
pub fn recognize_items(input: &[u8], pos: usize, depth: usize, out: &mut Vec<Token>) -> (r:
    Option<usize>)
    requires
        pos <= input.len(),
    ensures
        run_agrees(r, items_from(input@, pos as int, depth as nat), old(out)@, final(out)@),
        r matches Some(e) ==> pos <= e <= input.len(),
    decreases depth, 3int,
{
    let ghost whole = items_from(input@, pos as int, depth as nat);
    let ghost mut seen: Seq<Token> = seq![];
    let mut p: usize = pos;
    assert(out@ =~= old(out)@ + seen);
    loop
        invariant
            pos <= p <= input.len(),
            out@ == old(out)@ + seen,
            whole == items_from(input@, pos as int, depth as nat),
            whole.tokens == seen + items_from(input@, p as int, depth as nat).tokens,
            whole.end == items_from(input@, p as int, depth as nat).end,
            whole.too_deep == items_from(input@, p as int, depth as nat).too_deep,
        decreases input.len() - p,
    {
        let ghost before = out@;
        match recognize_node(input, p, depth, out) {
            Scan::TooDeep => {
                return None;
            },
            Scan::NoMatch => {
                return Some(p);
            },
            Scan::Match(end) => {
                let next = skip_whitespace(input, end);
                proof {
                    let found = node_at(input@, p as int, depth as nat)->tokens;
                    let rest = items_from(input@, next as int, depth as nat);
                    assert(items_from(input@, p as int, depth as nat).tokens == found
                        + rest.tokens);
                    assert(seen + (found + rest.tokens) =~= (seen + found) + rest.tokens);
                    assert(old(out)@ + (seen + found) =~= before + found);
                    seen = seen + found;
                }
                p = next;
            },
        }
    }
}

/// Recognizes zero or more key pairs from `pos`.
pub fn recognize_pairs(input: &[u8], pos: usize, depth: usize, out: &mut Vec<Token>) -> (r:
    Option<usize>)
    requires
        pos <= input.len(),
    ensures
        run_agrees(r, pairs_from(input@, pos as int, depth as nat), old(out)@, final(out)@),
        r matches Some(e) ==> pos <= e <= input.len(),
    decreases depth, 3int,
{
    let ghost whole = pairs_from(input@, pos as int, depth as nat);
    let ghost mut seen: Seq<Token> = seq![];
    let mut p: usize = pos;
    assert(out@ =~= old(out)@ + seen);
    loop
        invariant
            pos <= p <= input.len(),
            out@ == old(out)@ + seen,
            whole == pairs_from(input@, pos as int, depth as nat),
            whole.tokens == seen + pairs_from(input@, p as int, depth as nat).tokens,
            whole.end == pairs_from(input@, p as int, depth as nat).end,
            whole.too_deep == pairs_from(input@, p as int, depth as nat).too_deep,
        decreases input.len() - p,
    {
        let ghost before = out@;
        match recognize_keypair(input, p, depth, out) {
            Scan::TooDeep => {
                return None;
            },
            Scan::NoMatch => {
                return Some(p);
            },
            Scan::Match(end) => {
                let next = skip_whitespace(input, end);
                proof {
                    let found = keypair_at(input@, p as int, depth as nat)->tokens;
                    let rest = pairs_from(input@, next as int, depth as nat);
                    assert(pairs_from(input@, p as int, depth as nat).tokens == found
                        + rest.tokens);
                    assert(seen + (found + rest.tokens) =~= (seen + found) + rest.tokens);
                    assert(old(out)@ + (seen + found) =~= before + found);
                    seen = seen + found;
                }
                p = next;
            },
        }
    }
}

} // verus!
