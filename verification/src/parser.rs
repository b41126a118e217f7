//! The COS object parser: a recursive-descent parser over the bytes of one
//! object, and the function that reads one object from its text.

use vstd::prelude::*;
use vstd::string::StringSliceAdditionalSpecFns;
use crate::cos::{Cos, DictNode};
use crate::error::{Expected, PdfError};
use crate::grammar::{
    array_at, dictionary_at, keypair_at, leaf, node_at, recognize_array, recognize_dictionary,
    recognize_keypair, recognize_node, recognize_reference, reference_at, Outcome, Rule, Scan,
    Token, MAX_DEPTH,
};
use crate::lex::{
    boolean_at, float_at, int_at, key_at, scan_boolean, scan_float, scan_int, scan_key,
    scan_string, skip_whitespace, skip_ws, string_at,
};
use crate::value::{build_node, built_node, Built};

verus! {

/// The text that a parser reads.
pub struct StringInput {
    bytes: Vec<u8>,
}

impl View for StringInput {
    type V = Seq<u8>;

    closed spec fn view(&self) -> Seq<u8> {
        self.bytes@
    }
}

impl StringInput {
    /// The bytes of `text` as input.
    pub fn new(text: &str) -> (input: StringInput)
        ensures
            input@ == text.spec_bytes(),
    {
        StringInput { bytes: vstd::slice::slice_to_vec(text.as_bytes()) }
    }

    /// `bytes` as input.
    pub fn from_bytes(bytes: &[u8]) -> (input: StringInput)
        ensures
            input@ == bytes@,
    {
        StringInput { bytes: vstd::slice::slice_to_vec(bytes) }
    }

    /// The bytes of the input.
    pub fn into_bytes(self) -> (bytes: Vec<u8>)
        ensures
            bytes@ == self@,
    {
        self.bytes
    }
}

/// A recursive-descent parser.  It holds the input, a position in it, and
/// the tokens of the productions that matched so far.  A production that
/// matches moves the position behind the match and appends its tokens; one
/// that does not match changes neither.
pub struct Rdp {
    input: Vec<u8>,
    pos: usize,
    queue: Vec<Token>,
    too_deep: bool,
}

/// What applying a production at the parser's position does to the parser.
pub open spec fn applied(before: Rdp, after: Rdp, matched: bool, o: Outcome) -> bool {
    &&& after.wf()
    &&& after.input() == before.input()
    &&& match o {
        Outcome::Match { tokens, end } => {
            &&& matched
            &&& after.position() == end
            &&& after.tokens() == before.tokens() + tokens
            &&& after.gave_up() == before.gave_up()
        },
        Outcome::NoMatch => {
            &&& !matched
            &&& after.position() == before.position()
            &&& after.tokens() == before.tokens()
            &&& after.gave_up() == before.gave_up()
        },
        Outcome::TooDeep => {
            &&& !matched
            &&& after.position() == before.position()
            &&& after.tokens() == before.tokens()
            &&& after.gave_up()
        },
    }
}

impl Rdp {
    /// The position lies within the input.
    pub closed spec fn wf(&self) -> bool {
        self.pos <= self.input@.len()
    }

    /// The bytes that the parser reads.
    pub closed spec fn input(&self) -> Seq<u8> {
        self.input@
    }

    /// The parser's position.
    pub closed spec fn position(&self) -> int {
        self.pos as int
    }

    /// The tokens of the productions that matched so far.
    pub closed spec fn tokens(&self) -> Seq<Token> {
        self.queue@
    }

    /// Whether a production was given up because the nesting was too deep.
    pub closed spec fn gave_up(&self) -> bool {
        self.too_deep
    }

    /// A parser at the start of `input`.
    pub fn new(input: StringInput) -> (parser: Rdp)
        ensures
            parser.wf(),
            parser.input() == input@,
            parser.position() == 0,
            parser.tokens() == Seq::<Token>::empty(),
            !parser.gave_up(),
    {
        Rdp { input: input.into_bytes(), pos: 0, queue: Vec::new(), too_deep: false }
    }

    /// The parser's position.
    pub fn pos(&self) -> (p: usize)
        ensures
            p == self.position(),
    {
        self.pos
    }

    /// Whether the parser has reached the end of the input.
    pub fn end(&self) -> (b: bool)
        ensures
            b == (self.position() == self.input().len()),
    {
        self.pos == self.input.len()
    }

    /// The tokens of the productions that matched so far.
    pub fn queue(&self) -> (q: &Vec<Token>)
        ensures
            q@ == self.tokens(),
    {
        &self.queue
    }

    /// Whether a production was given up because the nesting was too deep.
    pub fn depth_exceeded(&self) -> (b: bool)
        ensures
            b == self.gave_up(),
    {
        self.too_deep
    }

    /// Moves the position behind the whitespace at it.
    pub fn skip(&mut self)
        requires
            old(self).wf(),
        ensures
            final(self).wf(),
            final(self).input() == old(self).input(),
            final(self).position() == skip_ws(old(self).input(), old(self).position()),
            final(self).tokens() == old(self).tokens(),
            final(self).gave_up() == old(self).gave_up(),
    {
        self.pos = skip_whitespace(self.input.as_slice(), self.pos);
    }

    /// Takes over what a scanner found.
    fn settle(&mut self, scan: Scan, o: Ghost<Outcome>, found: Vec<Token>) -> (matched: bool)
        requires
            old(self).wf(),
            crate::grammar::scan_agrees(scan, o@, Seq::<Token>::empty(), found@),
            scan matches Scan::Match(e) ==> e <= old(self).input().len(),
        ensures
            applied(*old(self), *final(self), matched, o@),
    {
        let mut found = found;
        match scan {
            Scan::Match(end) => {
                self.pos = end;
                self.queue.append(&mut found);
                true
            },
            Scan::NoMatch => false,
            Scan::TooDeep => {
                self.too_deep = true;
                false
            },
        }
    }

    /// Takes over the end of a production without parts.
    fn settle_leaf(&mut self, rule: Rule, end: Option<usize>, wanted: Ghost<Option<int>>) -> (matched:
        bool)
        requires
            old(self).wf(),
            crate::lex::same_end(end, wanted@),
            end matches Some(e) ==> e <= old(self).input().len(),
        ensures
            applied(*old(self), *final(self), matched, leaf(rule, old(self).position(), wanted@)),
    {
        match end {
            Some(e) => {
                self.queue.push(Token { rule, start: self.pos, end: e });
                self.pos = e;
                assert(self.queue@ =~= old(self).queue@ + seq![
                    crate::grammar::tok(rule, old(self).pos as int, e as int),
                ]);
                true
            },
            None => false,
        }
    }

    /// key: `/` and a run of bytes that are neither whitespace nor delimiters.
    pub fn key(&mut self) -> (matched: bool)
        requires
            old(self).wf(),
        ensures
            applied(
                *old(self),
                *final(self),
                matched,
                leaf(Rule::Key, old(self).position(), key_at(old(self).input(), old(self).position())),
            ),
    {
        let end = scan_key(self.input.as_slice(), self.pos);
        self.settle_leaf(Rule::Key, end, Ghost(key_at(self.input@, self.pos as int)))
    }

    /// string: `(` … `)` or `<` … `>`.
    pub fn string(&mut self) -> (matched: bool)
        requires
            old(self).wf(),
        ensures
            applied(
                *old(self),
                *final(self),
                matched,
                leaf(
                    Rule::Str,
                    old(self).position(),
                    string_at(old(self).input(), old(self).position()),
                ),
            ),
    {
        let end = scan_string(self.input.as_slice(), self.pos);
        self.settle_leaf(Rule::Str, end, Ghost(string_at(self.input@, self.pos as int)))
    }

    /// integer: optional `-` and digits, where no real number stands.
    pub fn integer(&mut self) -> (matched: bool)
        requires
            old(self).wf(),
        ensures
            applied(
                *old(self),
                *final(self),
                matched,
                leaf(
                    Rule::Integer,
                    old(self).position(),
                    int_at(old(self).input(), old(self).position()),
                ),
            ),
    {
        let end = scan_int(self.input.as_slice(), self.pos);
        self.settle_leaf(Rule::Integer, end, Ghost(int_at(self.input@, self.pos as int)))
    }

    /// float: optional `-`, digits, `.`, optional digits.
    pub fn float(&mut self) -> (matched: bool)
        requires
            old(self).wf(),
        ensures
            applied(
                *old(self),
                *final(self),
                matched,
                leaf(
                    Rule::Float,
                    old(self).position(),
                    float_at(old(self).input(), old(self).position()),
                ),
            ),
    {
        let end = scan_float(self.input.as_slice(), self.pos);
        self.settle_leaf(Rule::Float, end, Ghost(float_at(self.input@, self.pos as int)))
    }

    /// boolean: `true` or `false`.
    pub fn boolean(&mut self) -> (matched: bool)
        requires
            old(self).wf(),
        ensures
            applied(
                *old(self),
                *final(self),
                matched,
                leaf(
                    Rule::Boolean,
                    old(self).position(),
                    boolean_at(old(self).input(), old(self).position()),
                ),
            ),
    {
        let end = scan_boolean(self.input.as_slice(), self.pos);
        self.settle_leaf(Rule::Boolean, end, Ghost(boolean_at(self.input@, self.pos as int)))
    }

    /// reference: integer, integer, `R`.
    pub fn reference(&mut self) -> (matched: bool)
        requires
            old(self).wf(),
        ensures
            applied(
                *old(self),
                *final(self),
                matched,
                reference_at(old(self).input(), old(self).position()),
            ),
    {
        let mut found: Vec<Token> = Vec::new();
        let scan = recognize_reference(self.input.as_slice(), self.pos, &mut found);
        self.settle(scan, Ghost(reference_at(self.input@, self.pos as int)), found)
    }

    /// array: `[`, nodes, `]`.
    pub fn array(&mut self) -> (matched: bool)
        requires
            old(self).wf(),
        ensures
            applied(
                *old(self),
                *final(self),
                matched,
                array_at(old(self).input(), old(self).position(), MAX_DEPTH as nat),
            ),
    {
        let mut found: Vec<Token> = Vec::new();
        let scan = recognize_array(self.input.as_slice(), self.pos, MAX_DEPTH, &mut found);
        self.settle(scan, Ghost(array_at(self.input@, self.pos as int, MAX_DEPTH as nat)), found)
    }

    /// dictionary: `<<`, key pairs, `>>`.
    pub fn dictionary(&mut self) -> (matched: bool)
        requires
            old(self).wf(),
        ensures
            applied(
                *old(self),
                *final(self),
                matched,
                dictionary_at(old(self).input(), old(self).position(), MAX_DEPTH as nat),
            ),
    {
        let mut found: Vec<Token> = Vec::new();
        let scan = recognize_dictionary(self.input.as_slice(), self.pos, MAX_DEPTH, &mut found);
        self.settle(
            scan,
            Ghost(dictionary_at(self.input@, self.pos as int, MAX_DEPTH as nat)),
            found,
        )
    }

    /// keypair: a name and a node.
    pub fn keypair(&mut self) -> (matched: bool)
        requires
            old(self).wf(),
        ensures
            applied(
                *old(self),
                *final(self),
                matched,
                keypair_at(old(self).input(), old(self).position(), MAX_DEPTH as nat),
            ),
    {
        let mut found: Vec<Token> = Vec::new();
        let scan = recognize_keypair(self.input.as_slice(), self.pos, MAX_DEPTH, &mut found);
        self.settle(scan, Ghost(keypair_at(self.input@, self.pos as int, MAX_DEPTH as nat)), found)
    }

    /// node: the first that matches of array, reference, string, key,
    /// integer, float, boolean, dictionary.
    pub fn node(&mut self) -> (matched: bool)
        requires
            old(self).wf(),
        ensures
            applied(
                *old(self),
                *final(self),
                matched,
                node_at(old(self).input(), old(self).position(), MAX_DEPTH as nat),
            ),
    {
        let mut found: Vec<Token> = Vec::new();
        let scan = recognize_node(self.input.as_slice(), self.pos, MAX_DEPTH, &mut found);
        self.settle(scan, Ghost(node_at(self.input@, self.pos as int, MAX_DEPTH as nat)), found)
    }

    /// The value of the first node among the tokens.
    pub fn parse(&self) -> (r: Result<DictNode, PdfError>)
        ensures
            match built_node(self.input(), self.tokens(), 0, MAX_DEPTH as nat) {
                Built::Done { value, .. } => r matches Ok(node) && node@ == value,
                Built::Fail { error } => r matches Err(e) && e == error,
            },
    {
        match build_node(self.input.as_slice(), &self.queue, 0, MAX_DEPTH) {
            Ok((node, _)) => Ok(node),
            Err(e) => Err(e),
        }
    }
}

/// The parse tree of the text of one object: the tokens of the node that
/// the text holds between whitespace, or the place at which the grammar fails.
pub open spec fn parsed_tree(s: Seq<u8>) -> Result<Seq<Token>, PdfError> {
    let start = skip_ws(s, 0);
    match node_at(s, start, MAX_DEPTH as nat) {
        Outcome::TooDeep => Err(
            PdfError::Parse { position: start as usize, expected: Expected::ShallowerNesting },
        ),
        Outcome::NoMatch => Err(
            PdfError::Grammar { position: start as usize, expected: Expected::Object },
        ),
        Outcome::Match { tokens, end } => {
            let rest = skip_ws(s, end);
            if rest != s.len() {
                Err(PdfError::Grammar { position: rest as usize, expected: Expected::EndOfInput })
            } else {
                Ok(tokens)
            }
        },
    }
}

/// What the text of one object denotes: the value that its parse tree
/// denotes, or the failure to read it.
pub open spec fn parsed_object(s: Seq<u8>) -> Result<Cos, PdfError> {
    match parsed_tree(s) {
        Err(error) => Err(error),
        Ok(tokens) => match built_node(s, tokens, 0, MAX_DEPTH as nat) {
            Built::Done { value, .. } => Ok(value),
            Built::Fail { error } => Err(error),
        },
    }
}

/// Whether a result is what a specification gives.
pub open spec fn object_agrees(r: Result<DictNode, PdfError>, wanted: Result<Cos, PdfError>) -> bool {
    match wanted {
        Ok(value) => r matches Ok(node) && node@ == value,
        Err(error) => r matches Err(e) && e == error,
    }
}

/// Recognizes the text of one object and gives its parse tree.  Nothing but
/// whitespace may stand before and behind the object.
pub fn parse_tree(text: &[u8]) -> (r: Result<Vec<Token>, PdfError>)
    ensures
        match parsed_tree(text@) {
            Ok(tokens) => r matches Ok(v) && v@ == tokens,
            Err(error) => r matches Err(e) && e == error,
        },
{
    let start = skip_whitespace(text, 0);
    let mut tokens: Vec<Token> = Vec::new();
    match recognize_node(text, start, MAX_DEPTH, &mut tokens) {
        Scan::TooDeep => Err(
            PdfError::Parse { position: start, expected: Expected::ShallowerNesting },
        ),
        Scan::NoMatch => Err(PdfError::Grammar { position: start, expected: Expected::Object }),
        Scan::Match(end) => {
            let rest = skip_whitespace(text, end);
            if rest != text.len() {
                return Err(PdfError::Grammar { position: rest, expected: Expected::EndOfInput });
            }
            assert(tokens@ =~= node_at(text@, start as int, MAX_DEPTH as nat)->tokens);
            Ok(tokens)
        },
    }
}

/// Reads one object from its text.
pub fn parse_object(text: &[u8]) -> (r: Result<DictNode, PdfError>)
    ensures
        object_agrees(r, parsed_object(text@)),
{
    let tokens = match parse_tree(text) {
        Ok(t) => t,
        Err(e) => {
            return Err(e);
        },
    };
    match build_node(text, &tokens, 0, MAX_DEPTH) {
        Ok((node, _)) => Ok(node),
        Err(e) => Err(e),
    }
}

} // verus!
