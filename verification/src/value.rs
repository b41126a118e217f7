//! From a parse tree to a value.  The tree is the sequence of tokens that the
//! grammar leaves, each node before its children; the value is built from the
//! tokens and from the bytes they span.

use vstd::prelude::*;
use vstd::slice::slice_subrange;
use crate::cos::{nodes_view, Cos, Dict, DictNode};
use crate::error::{Expected, PdfError};
use crate::grammar::{Rule, Token};
use crate::lex::{has_at, starts_with_at, word_false, word_true};
use crate::number::{int_value, is_int_literal, parse_i64};
use crate::text::{read_text, text_of};

verus! {

/// What building a value from the tokens at an index gives.
pub ghost enum Built<T> {
    /// The value, and the index of the first token behind it.
    Done { value: T, next: int },
    Fail { error: PdfError },
}

/// The bytes that a token spans.
pub open spec fn lexeme(s: Seq<u8>, t: Token) -> Seq<u8> {
    s.subrange(t.start as int, t.end as int)
}

/// Whether a token spans bytes of the input.
pub open spec fn spans(s: Seq<u8>, t: Token) -> bool {
    t.start <= t.end <= s.len()
}

/// The failure to build a value at a token.
pub open spec fn refusal(t: Token, expected: Expected) -> PdfError {
    PdfError::Parse { position: t.start, expected }
}

/// The failure to find a token at all.
pub open spec fn exhausted(s: Seq<u8>) -> PdfError {
    PdfError::Parse { position: s.len() as usize, expected: Expected::Object }
}

/// The value of a token without children.
pub open spec fn built_leaf(s: Seq<u8>, t: Token) -> Result<Cos, PdfError> {
    let lex = lexeme(s, t);
    match t.rule {
        Rule::Integer => if is_int_literal(lex) && i64::MIN <= int_value(lex) <= i64::MAX {
            Ok(Cos::Int(int_value(lex)))
        } else {
            Err(refusal(t, Expected::Integer))
        },
        Rule::Float => match text_of(lex) {
            Some(text) => Ok(Cos::Float(text)),
            None => Err(refusal(t, Expected::Utf8Text)),
        },
        Rule::Str | Rule::Key => match text_of(lex) {
            Some(text) => Ok(Cos::Str(text)),
            None => Err(refusal(t, Expected::Utf8Text)),
        },
        Rule::Boolean => if lex == word_true() {
            Ok(Cos::Bool(true))
        } else if lex == word_false() {
            Ok(Cos::Bool(false))
        } else {
            Err(refusal(t, Expected::Object))
        },
        _ => Err(refusal(t, Expected::Object)),
    }
}

/// The value of the node whose token stands at index `i` of `q`.
pub open spec fn built_node(s: Seq<u8>, q: Seq<Token>, i: int, depth: nat) -> Built<Cos>
    decreases q.len() - i, 0int,
{
    if !(0 <= i < q.len()) {
        Built::Fail { error: exhausted(s) }
    } else if !spans(s, q[i]) {
        Built::Fail { error: refusal(q[i], Expected::Object) }
    } else {
        match q[i].rule {
            Rule::Reference => {
                if !(i + 2 < q.len() && q[i + 1].rule == Rule::Integer && q[i + 2].rule
                    == Rule::Integer) {
                    Built::Fail { error: refusal(q[i], Expected::Integer) }
                } else {
                    match (built_node(s, q, i + 1, depth), built_node(s, q, i + 2, depth)) {
                        (
                            Built::Done { value: Cos::Int(number), .. },
                            Built::Done { value: Cos::Int(generation), .. },
                        ) => Built::Done {
                            value: Cos::ObjectReference(number, generation),
                            next: i + 3,
                        },
                        (Built::Fail { error }, _) => Built::Fail { error },
                        (_, Built::Fail { error }) => Built::Fail { error },
                        _ => Built::Fail { error: refusal(q[i], Expected::Integer) },
                    }
                }
            },
            Rule::Array => {
                if depth == 0 {
                    Built::Fail { error: refusal(q[i], Expected::ShallowerNesting) }
                } else if !(i + 1 < q.len() && q[i + 1].rule == Rule::BeginArray) {
                    Built::Fail { error: refusal(q[i], Expected::Object) }
                } else {
                    match built_items(s, q, i + 2, (depth - 1) as nat, seq![]) {
                        Built::Done { value, next } => Built::Done {
                            value: Cos::Array(value),
                            next,
                        },
                        Built::Fail { error } => Built::Fail { error },
                    }
                }
            },
            Rule::Dictionary => {
                if depth == 0 {
                    Built::Fail { error: refusal(q[i], Expected::ShallowerNesting) }
                } else if !(i + 1 < q.len() && q[i + 1].rule == Rule::BeginDict) {
                    Built::Fail { error: refusal(q[i], Expected::Object) }
                } else {
                    match built_pairs(s, q, i + 2, (depth - 1) as nat, Map::empty()) {
                        Built::Done { value, next } => Built::Done { value: Cos::Dict(value), next },
                        Built::Fail { error } => Built::Fail { error },
                    }
                }
            },
            _ => match built_leaf(s, q[i]) {
                Ok(value) => Built::Done { value, next: i + 1 },
                Err(error) => Built::Fail { error },
            },
        }
    }
}

/// The values of the nodes from index `j` up to the token that ends the
/// array, behind the values `acc` of the nodes before them.
pub open spec fn built_items(s: Seq<u8>, q: Seq<Token>, j: int, depth: nat, acc: Seq<Cos>) -> Built<
    Seq<Cos>,
>
    decreases q.len() - j, 1int,
{
    if !(0 <= j < q.len()) {
        Built::Fail { error: exhausted(s) }
    } else if q[j].rule == Rule::EndArray {
        Built::Done { value: acc, next: j + 1 }
    } else {
        match built_node(s, q, j, depth) {
            Built::Fail { error } => Built::Fail { error },
            Built::Done { value, next } => {
                if j < next <= q.len() {
                    built_items(s, q, next, depth, acc.push(value))
                } else {
                    Built::Fail { error: exhausted(s) }
                }
            },
        }
    }
}

/// The name that a key token spans, without its leading `/`.
pub open spec fn key_text(s: Seq<u8>, t: Token) -> Option<Seq<char>> {
    if spans(s, t) && t.start < t.end {
        text_of(s.subrange(t.start + 1, t.end as int))
    } else {
        None
    }
}

/// The mapping of the key pairs from index `j` up to the token that ends the
/// dictionary, laid over the mapping `acc` of the pairs before them.
pub open spec fn built_pairs(
    s: Seq<u8>,
    q: Seq<Token>,
    j: int,
    depth: nat,
    acc: Map<Seq<char>, Cos>,
) -> Built<Map<Seq<char>, Cos>>
    decreases q.len() - j, 1int,
{
    if !(0 <= j < q.len()) {
        Built::Fail { error: exhausted(s) }
    } else if q[j].rule == Rule::EndDict {
        Built::Done { value: acc, next: j + 1 }
    } else if !(q[j].rule == Rule::Keypair && j + 1 < q.len() && q[j + 1].rule == Rule::Key) {
        Built::Fail { error: refusal(q[j], Expected::Object) }
    } else {
        match key_text(s, q[j + 1]) {
            None => Built::Fail { error: refusal(q[j + 1], Expected::Utf8Text) },
            Some(key) => match built_node(s, q, j + 2, depth) {
                Built::Fail { error } => Built::Fail { error },
                Built::Done { value, next } => {
                    if j < next <= q.len() {
                        built_pairs(s, q, next, depth, acc.insert(key, value))
                    } else {
                        Built::Fail { error: exhausted(s) }
                    }
                },
            },
        }
    }
}

/// Whether what a builder returns is what the tokens denote.
pub open spec fn build_agrees(r: Result<(DictNode, usize), PdfError>, b: Built<Cos>) -> bool {
    match b {
        Built::Done { value, next } => r matches Ok(p) && p.0@ == value && p.1 as int == next,
        Built::Fail { error } => r matches Err(e) && e == error,
    }
}

/// Builds the value of a token without children.
fn build_leaf(input: &[u8], t: Token) -> (r: Result<DictNode, PdfError>)
    requires
        spans(input@, t),
    ensures
        match built_leaf(input@, t) {
            Ok(value) => r matches Ok(node) && node@ == value,
            Err(error) => r matches Err(e) && e == error,
        },
{
    let lex = slice_subrange(input, t.start, t.end);
    match t.rule {
        Rule::Integer => match parse_i64(lex) {
            Some(v) => Ok(DictNode::Int(v)),
            None => Err(PdfError::Parse { position: t.start, expected: Expected::Integer }),
        },
        Rule::Float => match read_text(lex) {
            Some(text) => Ok(DictNode::Float(text)),
            None => Err(PdfError::Parse { position: t.start, expected: Expected::Utf8Text }),
        },
        Rule::Str | Rule::Key => match read_text(lex) {
            Some(text) => Ok(DictNode::Str(text)),
            None => Err(PdfError::Parse { position: t.start, expected: Expected::Utf8Text }),
        },
        Rule::Boolean => {
            let yes: [u8; 4] = [0x74, 0x72, 0x75, 0x65];
            let no: [u8; 5] = [0x66, 0x61, 0x6c, 0x73, 0x65];
            assert(yes@ =~= word_true());
            assert(no@ =~= word_false());
            assert(word_true().len() == 4 && word_false().len() == 5);
            if lex.len() == 4 && starts_with_at(lex, 0, yes.as_slice()) {
                assert(lex@.subrange(0, 4) =~= lex@);
                Ok(DictNode::Bool(true))
            } else if lex.len() == 5 && starts_with_at(lex, 0, no.as_slice()) {
                assert(lex@.subrange(0, 5) =~= lex@);
                Ok(DictNode::Bool(false))
            } else {
                proof {
                    if lex@ == word_true() {
                        assert(lex@.subrange(0, 4) =~= lex@);
                        assert(has_at(lex@, 0, word_true()));
                    }
                    if lex@ == word_false() {
                        assert(lex@.subrange(0, 5) =~= lex@);
                        assert(has_at(lex@, 0, word_false()));
                    }
                }
                Err(PdfError::Parse { position: t.start, expected: Expected::Object })
            }
        },
        _ => Err(PdfError::Parse { position: t.start, expected: Expected::Object }),
    }
}

/// Builds the value of the node whose token stands at index `i` of `queue`,
/// following at most `depth` levels of nesting.
#[verifier::loop_isolation(false)]
pub fn build_node(input: &[u8], queue: &Vec<Token>, i: usize, depth: usize) -> (r: Result<
    (DictNode, usize),
    PdfError,
>)
    ensures
        build_agrees(r, built_node(input@, queue@, i as int, depth as nat)),
        r matches Ok(p) ==> i < p.1 <= queue.len(),
    decreases queue.len() - i, 0int,
{
    if i >= queue.len() {
        return Err(PdfError::Parse { position: input.len(), expected: Expected::Object });
    }
    let t = queue[i];
    if t.start > t.end || t.end > input.len() {
        return Err(PdfError::Parse { position: t.start, expected: Expected::Object });
    }
    match t.rule {
        Rule::Reference => {
            if queue.len() - i <= 2 {
                return Err(PdfError::Parse { position: t.start, expected: Expected::Integer });
            }
            match (queue[i + 1].rule, queue[i + 2].rule) {
                (Rule::Integer, Rule::Integer) => {},
                _ => {
                    return Err(
                        PdfError::Parse { position: t.start, expected: Expected::Integer },
                    );
                },
            }
            let number = match build_node(input, queue, i + 1, depth) {
                Ok((DictNode::Int(n), _)) => n,
                Ok(_) => {
                    return Err(
                        PdfError::Parse { position: t.start, expected: Expected::Integer },
                    );
                },
                Err(e) => {
                    return Err(e);
                },
            };
            let generation = match build_node(input, queue, i + 2, depth) {
                Ok((DictNode::Int(g), _)) => g,
                Ok(_) => {
                    return Err(
                        PdfError::Parse { position: t.start, expected: Expected::Integer },
                    );
                },
                Err(e) => {
                    return Err(e);
                },
            };
            Ok((DictNode::ObjectReference(number, generation), i + 3))
        },
        Rule::Array => {
            if depth == 0 {
                return Err(
                    PdfError::Parse { position: t.start, expected: Expected::ShallowerNesting },
                );
            }
            if queue.len() - i <= 1 {
                return Err(PdfError::Parse { position: t.start, expected: Expected::Object });
            }
            match queue[i + 1].rule {
                Rule::BeginArray => {},
                _ => {
                    return Err(PdfError::Parse { position: t.start, expected: Expected::Object });
                },
            }
            let mut items: Vec<DictNode> = Vec::new();
            let mut j: usize = i + 2;
            loop
                invariant
                    i + 2 <= j <= queue.len(),
                    depth > 0,
                    built_items(input@, queue@, i + 2, (depth - 1) as nat, seq![]) == built_items(
                        input@,
                        queue@,
                        j as int,
                        (depth - 1) as nat,
                        nodes_view(items@),
                    ),
                decreases queue.len() - j,
            {
                if j >= queue.len() {
                    return Err(
                        PdfError::Parse { position: input.len(), expected: Expected::Object },
                    );
                }
                match queue[j].rule {
                    Rule::EndArray => {
                        return Ok((DictNode::Array(items), j + 1));
                    },
                    _ => {},
                }
                match build_node(input, queue, j, depth - 1) {
                    Err(e) => {
                        return Err(e);
                    },
                    Ok((value, next)) => {
                        let ghost before = items@;
                        items.push(value);
                        proof {
                            assert(items@.drop_last() =~= before);
                            assert(nodes_view(items@) == nodes_view(before).push(value@));
                        }
                        j = next;
                    },
                }
            }
        },
        Rule::Dictionary => {
            if depth == 0 {
                return Err(
                    PdfError::Parse { position: t.start, expected: Expected::ShallowerNesting },
                );
            }
            if queue.len() - i <= 1 {
                return Err(PdfError::Parse { position: t.start, expected: Expected::Object });
            }
            match queue[i + 1].rule {
                Rule::BeginDict => {},
                _ => {
                    return Err(PdfError::Parse { position: t.start, expected: Expected::Object });
                },
            }
            let mut dict = Dict::new();
            let mut j: usize = i + 2;
            loop
                invariant
                    i + 2 <= j <= queue.len(),
                    depth > 0,
                    built_pairs(input@, queue@, i + 2, (depth - 1) as nat, Map::empty())
                        == built_pairs(input@, queue@, j as int, (depth - 1) as nat, dict@),
                decreases queue.len() - j,
            {
                if j >= queue.len() {
                    return Err(
                        PdfError::Parse { position: input.len(), expected: Expected::Object },
                    );
                }
                let pair = queue[j];
                match pair.rule {
                    Rule::EndDict => {
                        return Ok((DictNode::Dict(dict), j + 1));
                    },
                    Rule::Keypair => {},
                    _ => {
                        return Err(
                            PdfError::Parse { position: pair.start, expected: Expected::Object },
                        );
                    },
                }
                if queue.len() - j <= 1 {
                    return Err(PdfError::Parse { position: pair.start, expected: Expected::Object });
                }
                let kt = queue[j + 1];
                match kt.rule {
                    Rule::Key => {},
                    _ => {
                        return Err(
                            PdfError::Parse { position: pair.start, expected: Expected::Object },
                        );
                    },
                }
                if !(kt.start < kt.end && kt.end <= input.len()) {
                    return Err(PdfError::Parse { position: kt.start, expected: Expected::Utf8Text });
                }
                let key = match read_text(slice_subrange(input, kt.start + 1, kt.end)) {
                    Some(text) => text,
                    None => {
                        return Err(
                            PdfError::Parse { position: kt.start, expected: Expected::Utf8Text },
                        );
                    },
                };
                match build_node(input, queue, j + 2, depth - 1) {
                    Err(e) => {
                        return Err(e);
                    },
                    Ok((value, next)) => {
                        dict.insert(key, value);
                        j = next;
                    },
                }
            }
        },
        _ => match build_leaf(input, t) {
            Ok(node) => Ok((node, i + 1)),
            Err(e) => Err(e),
        },
    }
}

} // verus!
