//! The deserializer: from the tokens of an expression in prefix form to a
//! node of the graph, and from the lines of a script to the function table.

use vstd::prelude::*;
use vstd::slice::{slice_subrange, slice_to_vec};
use vstd::string::StringSliceAdditionalSpecFns;
use crate::graph::{ExprRef, Graph, GraphView};
use crate::name::Name;
use crate::semantics::Functions;
use crate::term::Term;
use crate::text::{
    count, find_single, first_index, id_of, integer_of, parse_id, parse_integer, pieces, ranges_within,
    same_bytes, split_tokens, tokens, COLON, EQUALS, LETTER_X, NEWLINE, SPACE,
};

verus! {

/// Why a text could not be read.
#[derive(Clone, Copy, Debug, PartialEq, Eq, Structural)]
pub enum ParseError {
    /// The text holds no token.
    Empty,
    /// The token at this place in the sequence of tokens is none of the
    /// language. The place is counted from 0 among the tokens of the
    /// expression (in a definition: of the body); `token_at` gives the
    /// token's text.
    UnknownToken(usize),
    /// The `ap` at this place in the sequence of tokens lacks an operand.
    MissingOperand(usize),
    /// The tokens spell more than one expression.
    ExtraTokens,
    /// A definition does not hold exactly one `=`.
    MalformedDefinition,
    /// What stands before the `=` is not one function token.
    BadFunctionName,
    /// Nothing stands after the `=`.
    EmptyBody,
    /// The text is neither an integer nor `t` nor `f`.
    NotANumber,
}

/// Why a script could not be loaded: the line, counted from 0 among the
/// lines that are not empty, and what is wrong with it.
#[derive(Clone, Copy, Debug, PartialEq, Eq, Structural)]
pub struct ScriptError {
    pub line: usize,
    pub error: ParseError,
}

/// A token of the language.
#[derive(Clone, Copy, Debug, PartialEq, Eq, Structural)]
pub enum Token {
    Ap,
    Atom(Name),
}

/// The operator that the keyword `s` names.
pub open spec fn operator_of(s: Seq<u8>) -> Option<Name> {
    if s == "add".spec_bytes() {
        Some(Name::Add)
    } else if s == "i".spec_bytes() {
        Some(Name::I)
    } else if s == "t".spec_bytes() {
        Some(Name::T)
    } else if s == "f".spec_bytes() {
        Some(Name::F)
    } else if s == "mul".spec_bytes() {
        Some(Name::Mul)
    } else if s == "div".spec_bytes() {
        Some(Name::Div)
    } else if s == "eq".spec_bytes() {
        Some(Name::Eq)
    } else if s == "lt".spec_bytes() {
        Some(Name::Lt)
    } else if s == "neg".spec_bytes() {
        Some(Name::Neg)
    } else if s == "s".spec_bytes() {
        Some(Name::S)
    } else if s == "c".spec_bytes() {
        Some(Name::C)
    } else if s == "b".spec_bytes() {
        Some(Name::B)
    } else if s == "cons".spec_bytes() {
        Some(Name::Cons)
    } else if s == "car".spec_bytes() {
        Some(Name::Car)
    } else if s == "cdr".spec_bytes() {
        Some(Name::Cdr)
    } else if s == "nil".spec_bytes() {
        Some(Name::Nil)
    } else if s == "isnil".spec_bytes() {
        Some(Name::Isnil)
    } else {
        None
    }
}

/// The id that follows the sigil `sigil` in `s`.
pub open spec fn sigil_id(s: Seq<u8>, sigil: u8) -> Option<u32> {
    if s.len() > 0 && s[0] == sigil {
        id_of(s.skip(1))
    } else {
        None
    }
}

/// The token that `s` spells: `ap`, an operator keyword, an integer
/// literal, a function reference `:` id, or a variable `x` id.
pub open spec fn token_of(s: Seq<u8>) -> Option<Token> {
    if s == "ap".spec_bytes() {
        Some(Token::Ap)
    } else if operator_of(s) is Some {
        Some(Token::Atom(operator_of(s)->0))
    } else if integer_of(s) is Some {
        Some(Token::Atom(Name::Int(integer_of(s)->0)))
    } else if sigil_id(s, COLON) is Some {
        Some(Token::Atom(Name::Function(sigil_id(s, COLON)->0)))
    } else if sigil_id(s, LETTER_X) is Some {
        Some(Token::Atom(Name::Variable(sigil_id(s, LETTER_X)->0)))
    } else {
        None
    }
}

/// The number that `s` spells where a number is asked for: an integer
/// literal, or `t` for 1, or `f` for 0.
pub open spec fn number_of(s: Seq<u8>) -> Option<i64> {
    if integer_of(s) is Some {
        integer_of(s)
    } else if s == "t".spec_bytes() {
        Some(1i64)
    } else if s == "f".spec_bytes() {
        Some(0i64)
    } else {
        None
    }
}

/// The stack of expressions after one more token was consumed: an atom is
/// pushed, and `ap` pops its function part and then its argument and pushes
/// their application. The top is last. `at` is the place of the token.
pub open spec fn shift(stack: Seq<Term>, token: Option<Token>, at: int) -> Result<
    Seq<Term>,
    ParseError,
> {
    match token {
        None => Err(ParseError::UnknownToken(at as usize)),
        Some(Token::Atom(name)) => Ok(stack.push(Term::Atom(name))),
        Some(Token::Ap) => if stack.len() < 2 {
            Err(ParseError::MissingOperand(at as usize))
        } else {
            Ok(
                stack.drop_last().drop_last().push(
                    Term::ap(stack[stack.len() - 1], stack[stack.len() - 2]),
                ),
            )
        },
    }
}

/// The stack of expressions after the tokens from `from` on were consumed
/// from the right.
pub open spec fn parse_suffix(toks: Seq<Option<Token>>, from: int) -> Result<Seq<Term>, ParseError>
    decreases toks.len() - from,
{
    if from >= toks.len() || from < 0 {
        Ok(Seq::empty())
    } else {
        match parse_suffix(toks, from + 1) {
            Err(e) => Err(e),
            Ok(stack) => shift(stack, toks[from], from),
        }
    }
}

/// The tokens fail as a whole as the tokens from `from` on do.
pub proof fn lemma_suffix_fails(toks: Seq<Option<Token>>, from: int)
    requires
        0 <= from <= toks.len(),
        parse_suffix(toks, from) is Err,
    ensures
        parse_suffix(toks, 0) == parse_suffix(toks, from),
    decreases from,
{
    if from > 0 {
        lemma_suffix_fails(toks, from - 1);
    }
}

/// The one expression that the tokens spell in prefix form.
pub open spec fn parse_expression(toks: Seq<Option<Token>>) -> Result<Term, ParseError> {
    if toks.len() == 0 {
        Err(ParseError::Empty)
    } else {
        match parse_suffix(toks, 0) {
            Err(e) => Err(e),
            Ok(stack) => if stack.len() == 1 {
                Ok(stack[0])
            } else {
                Err(ParseError::ExtraTokens)
            },
        }
    }
}

/// Where the tokens fail on a token that is none of the language, the error
/// names the place of such a token among them.
pub proof fn law_unknown_token_named(toks: Seq<Option<Token>>, place: usize)
    requires
        toks.len() <= usize::MAX,
        parse_expression(toks) == Err::<Term, ParseError>(ParseError::UnknownToken(place)),
    ensures
        place < toks.len(),
        toks[place as int] is None,
{
    lemma_unknown_token_named(toks, 0, place);
}

/// The same of the tokens from `from` on.
proof fn lemma_unknown_token_named(toks: Seq<Option<Token>>, from: int, place: usize)
    requires
        0 <= from,
        toks.len() <= usize::MAX,
        parse_suffix(toks, from) == Err::<Seq<Term>, ParseError>(ParseError::UnknownToken(place)),
    ensures
        from <= place < toks.len(),
        toks[place as int] is None,
    decreases toks.len() - from,
{
    if parse_suffix(toks, from + 1) is Err {
        lemma_unknown_token_named(toks, from + 1, place);
    }
}

/// The text of the token at `place` among the tokens of `text`, where there
/// are that many.
pub open spec fn token_text(text: Seq<u8>, place: int) -> Option<Seq<u8>> {
    let all = tokens(text, SPACE);
    if 0 <= place < all.len() {
        Some(all[place])
    } else {
        None
    }
}

/// The bytes of the token at `place` among the tokens of `text`: the token
/// that an error speaks of when it names a place.
pub fn token_at(text: &str, place: usize) -> (r: Option<Vec<u8>>)
    ensures
        match token_text(text.spec_bytes(), place as int) {
            Some(token) => r matches Some(bytes) && bytes@ == token,
            None => r is None,
        },
{
    let bytes = text.as_bytes();
    let ranges = split_tokens(bytes, SPACE);
    proof {
        assert(pieces(bytes@, ranges@).len() == ranges@.len());
    }
    if place >= ranges.len() {
        return None;
    }
    let (start, end) = ranges[place];
    let piece = slice_subrange(bytes, start, end);
    proof {
        assert(piece@ == pieces(bytes@, ranges@)[place as int]);
    }
    Some(slice_to_vec(piece))
}

/// The tokens that the pieces of text spell.
pub open spec fn lex(raw: Seq<Seq<u8>>) -> Seq<Option<Token>> {
    Seq::new(raw.len(), |i: int| token_of(raw[i]))
}

/// The expression that `text` spells with tokens that spaces separate.
pub open spec fn expression_of(text: Seq<u8>) -> Result<Term, ParseError> {
    parse_expression(lex(tokens(text, SPACE)))
}

/// The definition that `line` spells: a function token, `=`, and the tokens
/// of the body.
pub open spec fn definition_of(line: Seq<u8>) -> Result<(u32, Term), ParseError> {
    if count(line, EQUALS) != 1 {
        Err(ParseError::MalformedDefinition)
    } else {
        let at = first_index(line, EQUALS);
        let names = tokens(line.take(at), SPACE);
        if names.len() != 1 || sigil_id(names[0], COLON) is None {
            Err(ParseError::BadFunctionName)
        } else if tokens(line.skip(at + 1), SPACE).len() == 0 {
            Err(ParseError::EmptyBody)
        } else {
            match expression_of(line.skip(at + 1)) {
                Err(e) => Err(e),
                Ok(body) => Ok((sigil_id(names[0], COLON)->0, body)),
            }
        }
    }
}

/// The function table after the definitions of `lines` were added to `fns`
/// in order, a later one in place of an earlier one of the same id, up to
/// the first line that is no definition; and that line with its error.
pub open spec fn load_lines(fns: Functions, lines: Seq<Seq<u8>>) -> (Functions, Option<ScriptError>)
    decreases lines.len(),
{
    if lines.len() == 0 {
        (fns, None)
    } else {
        let before = load_lines(fns, lines.drop_last());
        if before.1 is Some {
            before
        } else {
            match definition_of(lines.last()) {
                Ok(def) => (before.0.insert(def.0, def.1), None),
                Err(e) => (
                    before.0,
                    Some(ScriptError { line: (lines.len() - 1) as usize, error: e }),
                ),
            }
        }
    }
}

/// The operator that the keyword `token` names.
pub fn parse_operator(token: &[u8]) -> (r: Option<Name>)
    ensures
        r == operator_of(token@),
{
    if same_bytes(token, "add".as_bytes()) {
        Some(Name::Add)
    } else if same_bytes(token, "i".as_bytes()) {
        Some(Name::I)
    } else if same_bytes(token, "t".as_bytes()) {
        Some(Name::T)
    } else if same_bytes(token, "f".as_bytes()) {
        Some(Name::F)
    } else if same_bytes(token, "mul".as_bytes()) {
        Some(Name::Mul)
    } else if same_bytes(token, "div".as_bytes()) {
        Some(Name::Div)
    } else if same_bytes(token, "eq".as_bytes()) {
        Some(Name::Eq)
    } else if same_bytes(token, "lt".as_bytes()) {
        Some(Name::Lt)
    } else if same_bytes(token, "neg".as_bytes()) {
        Some(Name::Neg)
    } else if same_bytes(token, "s".as_bytes()) {
        Some(Name::S)
    } else if same_bytes(token, "c".as_bytes()) {
        Some(Name::C)
    } else if same_bytes(token, "b".as_bytes()) {
        Some(Name::B)
    } else if same_bytes(token, "cons".as_bytes()) {
        Some(Name::Cons)
    } else if same_bytes(token, "car".as_bytes()) {
        Some(Name::Car)
    } else if same_bytes(token, "cdr".as_bytes()) {
        Some(Name::Cdr)
    } else if same_bytes(token, "nil".as_bytes()) {
        Some(Name::Nil)
    } else if same_bytes(token, "isnil".as_bytes()) {
        Some(Name::Isnil)
    } else {
        None
    }
}

/// The id that follows the sigil `sigil` in `token`.
pub fn parse_sigil(token: &[u8], sigil: u8) -> (r: Option<u32>)
    ensures
        r == sigil_id(token@, sigil),
{
    let n = token.len();
    if n > 0 && token[0] == sigil {
        let rest = slice_subrange(token, 1, n);
        parse_id(rest)
    } else {
        None
    }
}

/// The token that `token` spells.
pub fn parse_token(token: &[u8]) -> (r: Option<Token>)
    ensures
        r == token_of(token@),
{
    if same_bytes(token, "ap".as_bytes()) {
        return Some(Token::Ap);
    }
    if let Some(name) = parse_operator(token) {
        return Some(Token::Atom(name));
    }
    if let Some(i) = parse_integer(token) {
        return Some(Token::Atom(Name::Int(i)));
    }
    if let Some(id) = parse_sigil(token, COLON) {
        return Some(Token::Atom(Name::Function(id)));
    }
    if let Some(id) = parse_sigil(token, LETTER_X) {
        return Some(Token::Atom(Name::Variable(id)));
    }
    None
}

/// The number that `name` spells where a number is asked for.
pub fn parse_number(name: &str) -> (r: Result<i64, ParseError>)
    ensures
        r == match number_of(name.spec_bytes()) {
            Some(i) => Ok::<i64, ParseError>(i),
            None => Err::<i64, ParseError>(ParseError::NotANumber),
        },
{
    let bytes = name.as_bytes();
    if let Some(i) = parse_integer(bytes) {
        return Ok(i);
    }
    if same_bytes(bytes, "t".as_bytes()) {
        return Ok(1);
    }
    if same_bytes(bytes, "f".as_bytes()) {
        return Ok(0);
    }
    Err(ParseError::NotANumber)
}

/// The expressions that the nodes `refs` of `g` stand for.
pub open spec fn stack_terms(g: GraphView, refs: Seq<ExprRef>) -> Seq<Term> {
    Seq::new(refs.len(), |i: int| g.term(refs[i]))
}

impl Graph {
    /// Consumes one token: pushes the atom, or pops the two operands of `ap`
    /// and pushes their application.
    fn shift_token(&mut self, token: Option<Token>, at: usize, stack: &mut Vec<ExprRef>) -> (r:
        Result<(), ParseError>)
        requires
            old(self).wf(),
            forall|i: int| 0 <= i < old(stack)@.len() ==> old(self)@.contains(
                #[trigger] old(stack)@[i],
            ),
        ensures
            final(self).wf(),
            final(self)@.extends(old(self)@),
            forall|i: int| 0 <= i < final(stack)@.len() ==> final(self)@.contains(
                #[trigger] final(stack)@[i],
            ),
            match shift(stack_terms(old(self)@, old(stack)@), token, at as int) {
                Ok(terms) => r is Ok && stack_terms(final(self)@, final(stack)@) == terms,
                Err(e) => r == Err::<(), ParseError>(e),
            },
    {
        match token {
            None => Err(ParseError::UnknownToken(at)),
            Some(Token::Atom(name)) => {
                let node = self.atom(name);
                stack.push(node);
                Ok(())
            },
            Some(Token::Ap) => {
                let n = stack.len();
                if n < 2 {
                    return Err(ParseError::MissingOperand(at));
                }
                let func = stack[n - 1];
                let arg = stack[n - 2];
                stack.pop();
                stack.pop();
                let node = self.ap(func, arg);
                stack.push(node);
                proof {
                    let terms = stack_terms(old(self)@, old(stack)@);
                }
                Ok(())
            },
        }
    }

    /// Consumes the tokens at the places `ranges` of `text` from the last to
    /// the first, and gives the stack that is left.
    fn parse_tokens(&mut self, text: &[u8], ranges: &Vec<(usize, usize)>) -> (r: Result<
        Vec<ExprRef>,
        ParseError,
    >)
        requires
            old(self).wf(),
            ranges_within(ranges@, text@.len() as int),
        ensures
            final(self).wf(),
            final(self)@.extends(old(self)@),
            match parse_suffix(lex(pieces(text@, ranges@)), 0) {
                Ok(terms) => r matches Ok(stack) && stack_terms(final(self)@, stack@) == terms
                    && forall|i: int|
                    0 <= i < stack@.len() ==> final(self)@.contains(#[trigger] stack@[i]),
                Err(e) => r == Err::<Vec<ExprRef>, ParseError>(e),
            },
    {
        let ghost toks = lex(pieces(text@, ranges@));
        let mut stack: Vec<ExprRef> = Vec::new();
        let mut cursor = ranges.len();
        proof {
            assert(stack_terms(self@, stack@) =~= Seq::<Term>::empty());
        }
        while cursor > 0
            invariant
                self.wf(),
                self@.extends(old(self)@),
                cursor <= ranges@.len(),
                toks == lex(pieces(text@, ranges@)),
                ranges_within(ranges@, text@.len() as int),
                forall|i: int| 0 <= i < stack@.len() ==> self@.contains(#[trigger] stack@[i]),
                parse_suffix(toks, cursor as int) == Ok::<Seq<Term>, ParseError>(
                    stack_terms(self@, stack@),
                ),
            decreases cursor,
        {
            let at = cursor - 1;
            let (start, end) = ranges[at];
            let piece = slice_subrange(text, start, end);
            let ghost before = self@;
            proof {
                assert(piece@ == pieces(text@, ranges@)[at as int]);
                assert(toks[at as int] == token_of(piece@));
            }
            let token = parse_token(piece);
            match self.shift_token(token, at, &mut stack) {
                Err(e) => {
                    proof {
                        lemma_suffix_fails(toks, at as int);
                    }
                    return Err(e);
                },
                Ok(()) => {},
            }
            cursor = cursor - 1;
        }
        Ok(stack)
    }

    /// Builds the expression that the tokens of `text` spell in prefix form,
    /// and gives its root. The tokens are read from the last to the first.
    fn deserialize_bytes(&mut self, text: &[u8]) -> (r: Result<ExprRef, ParseError>)
        requires
            old(self).wf(),
        ensures
            final(self).wf(),
            final(self)@.extends(old(self)@),
            match expression_of(text@) {
                Ok(t) => r matches Ok(e) && final(self)@.contains(e) && final(self)@.term(e) == t,
                Err(err) => r == Err::<ExprRef, ParseError>(err),
            },
    {
        let ranges = split_tokens(text, SPACE);
        if ranges.len() == 0 {
            proof {
                assert(pieces(text@, ranges@).len() == 0);
            }
            return Err(ParseError::Empty);
        }
        let stack = match self.parse_tokens(text, &ranges) {
            Ok(stack) => stack,
            Err(e) => { return Err(e); },
        };
        if stack.len() != 1 {
            proof {
                assert(stack_terms(self@, stack@).len() == stack@.len());
            }
            return Err(ParseError::ExtraTokens);
        }
        Ok(stack[0])
    }

    /// Builds the expression that the tokens of `text` spell in prefix form.
    pub fn deserialize(&mut self, text: &str) -> (r: Result<ExprRef, ParseError>)
        requires
            old(self).wf(),
        ensures
            final(self).wf(),
            final(self)@.extends(old(self)@),
            match expression_of(text.spec_bytes()) {
                Ok(t) => r matches Ok(e) && final(self)@.contains(e) && final(self)@.term(e) == t,
                Err(err) => r == Err::<ExprRef, ParseError>(err),
            },
    {
        self.deserialize_bytes(text.as_bytes())
    }

    /// Reads the definition that `line` spells and builds its body: the id of
    /// the function and the root of the body.
    fn load_function_bytes(&mut self, line: &[u8]) -> (r: Result<(u32, ExprRef), ParseError>)
        requires
            old(self).wf(),
        ensures
            final(self).wf(),
            final(self)@.extends(old(self)@),
            match definition_of(line@) {
                Ok(def) => r matches Ok(got) && got.0 == def.0 && final(self)@.contains(got.1)
                    && final(self)@.term(got.1) == def.1,
                Err(err) => r == Err::<(u32, ExprRef), ParseError>(err),
            },
    {
        let n = line.len();
        let at = match find_single(line, EQUALS) {
            Some(at) => at,
            None => { return Err(ParseError::MalformedDefinition); },
        };
        let left = slice_subrange(line, 0, at);
        let right = slice_subrange(line, at + 1, n);
        let names = split_tokens(left, SPACE);
        if names.len() != 1 {
            return Err(ParseError::BadFunctionName);
        }
        let (start, end) = names[0];
        let name = slice_subrange(left, start, end);
        proof {
            assert(pieces(left@, names@).len() == names@.len());
        }
        let id = match parse_sigil(name, COLON) {
            Some(id) => id,
            None => { return Err(ParseError::BadFunctionName); },
        };
        let body_tokens = split_tokens(right, SPACE);
        if body_tokens.len() == 0 {
            return Err(ParseError::EmptyBody);
        }
        match self.deserialize_bytes(right) {
            Ok(body) => Ok((id, body)),
            Err(e) => Err(e),
        }
    }

    /// Reads the definition that `line` spells and builds its body.
    pub fn load_function(&mut self, line: &str) -> (r: Result<(u32, ExprRef), ParseError>)
        requires
            old(self).wf(),
        ensures
            final(self).wf(),
            final(self)@.extends(old(self)@),
            match definition_of(line.spec_bytes()) {
                Ok(def) => r matches Ok(got) && got.0 == def.0 && final(self)@.contains(got.1)
                    && final(self)@.term(got.1) == def.1,
                Err(err) => r == Err::<(u32, ExprRef), ParseError>(err),
            },
    {
        self.load_function_bytes(line.as_bytes())
    }

    /// Reads the definition that `line` spells and adds it to the function
    /// table.
    fn define_line(&mut self, line: &[u8]) -> (r: Result<(), ParseError>)
        requires
            old(self).wf(),
        ensures
            final(self).wf(),
            final(self)@.same_nodes(old(self)@),
            match definition_of(line@) {
                Ok(def) => r is Ok && final(self)@.function_terms() == old(
                    self,
                )@.function_terms().insert(def.0, def.1),
                Err(err) => r == Err::<(), ParseError>(err) && final(self)@.function_terms() == old(
                    self,
                )@.function_terms(),
            },
    {
        match self.load_function_bytes(line) {
            Err(e) => {
                Err(e)
            },
            Ok((id, body)) => {
                self.define_function(id, body);
                Ok(())
            },
        }
    }

    /// Adds the definitions that the lines of `script` spell to the function
    /// table, in order, and stops at the first line that is no definition.
    /// Empty lines are passed over.
    pub fn load_function_definitions(&mut self, script: &str) -> (r: Result<(), ScriptError>)
        requires
            old(self).wf(),
        ensures
            final(self).wf(),
            final(self)@.same_nodes(old(self)@),
            ({
                let loaded = load_lines(
                    old(self)@.function_terms(),
                    tokens(script.spec_bytes(), NEWLINE),
                );
                &&& final(self)@.function_terms() == loaded.0
                &&& r == match loaded.1 {
                    None => Ok::<(), ScriptError>(()),
                    Some(e) => Err::<(), ScriptError>(e),
                }
            }),
    {
        let bytes = script.as_bytes();
        let lines = split_tokens(bytes, NEWLINE);
        let ghost raw = tokens(bytes@, NEWLINE);
        let ghost fns = self@.function_terms();
        let mut i: usize = 0;
        while i < lines.len()
            invariant
                self.wf(),
                self@.same_nodes(old(self)@),
                i <= lines@.len(),
                raw.len() == lines@.len(),
                raw == tokens(script.spec_bytes(), NEWLINE),
                fns == old(self)@.function_terms(),
                pieces(bytes@, lines@) == raw,
                ranges_within(lines@, bytes@.len() as int),
                load_lines(fns, raw.take(i as int)) == (self@.function_terms(), None::<ScriptError>),
            decreases lines@.len() - i,
        {
            let (start, end) = lines[i];
            let line = slice_subrange(bytes, start, end);
            proof {
                assert(raw.take(i + 1).drop_last() =~= raw.take(i as int));
                assert(raw.take(i + 1).last() == line@);
            }
            match self.define_line(line) {
                Err(e) => {
                    proof {
                        lemma_load_stops(fns, raw, i + 1);
                    }
                    return Err(ScriptError { line: i, error: e });
                },
                Ok(()) => {},
            }
            i = i + 1;
        }
        proof {
            assert(raw.take(i as int) =~= raw);
        }
        Ok(())
    }
}

/// A script fails as its first part that fails does.
pub proof fn lemma_load_stops(fns: Functions, lines: Seq<Seq<u8>>, n: int)
    requires
        0 <= n <= lines.len(),
        load_lines(fns, lines.take(n)).1 is Some,
    ensures
        load_lines(fns, lines) == load_lines(fns, lines.take(n)),
    decreases lines.len() - n,
{
    if n == lines.len() {
        assert(lines.take(n) =~= lines);
    } else {
        assert(lines.take(n + 1).drop_last() =~= lines.take(n));
        lemma_load_stops(fns, lines, n + 1);
    }
}

/// The tokens that spell `t` in prefix form: an atom is its own token, and
/// an application is `ap`, its function part and its argument.
pub open spec fn serialize(t: Term) -> Seq<Option<Token>>
    decreases t,
{
    match t {
        Term::Atom(name) => seq![Some(Token::Atom(name))],
        Term::Ap(f, x) => seq![Some(Token::Ap)] + serialize(*f) + serialize(*x),
    }
}

/// The tokens that spell the expressions of a stack, from the top down.
pub open spec fn serialize_stack(stack: Seq<Term>) -> Seq<Option<Token>>
    decreases stack.len(),
{
    if stack.len() == 0 {
        Seq::empty()
    } else {
        serialize(stack.last()) + serialize_stack(stack.drop_last())
    }
}

/// Where the tokens of `t` stand at `pos`, reading from `pos` on leaves the
/// stack that reading what follows them leaves, with `t` on top.
pub proof fn lemma_parse_serialized(toks: Seq<Option<Token>>, pos: int, t: Term, stack: Seq<Term>)
    requires
        0 <= pos,
        pos + serialize(t).len() <= toks.len(),
        toks.subrange(pos, pos + serialize(t).len()) == serialize(t),
        parse_suffix(toks, pos + serialize(t).len()) == Ok::<Seq<Term>, ParseError>(stack),
    ensures
        parse_suffix(toks, pos) == Ok::<Seq<Term>, ParseError>(stack.push(t)),
    decreases t,
{
    let n = serialize(t).len() as int;
    match t {
        Term::Atom(_) => {
            assert(toks[pos] == toks.subrange(pos, pos + n)[0]);
        },
        Term::Ap(f, x) => {
            let nf = serialize(*f).len() as int;
            let nx = serialize(*x).len() as int;
            let whole = toks.subrange(pos, pos + n);
            assert(toks[pos] == whole[0]);
            assert(toks.subrange(pos + 1 + nf, pos + n) =~= serialize(*x)) by {
                assert forall|i: int| 0 <= i < nx implies toks[pos + 1 + nf + i] == serialize(
                    *x,
                )[i] by {
                    assert(toks[pos + 1 + nf + i] == whole[1 + nf + i]);
                }
            }
            assert(toks.subrange(pos + 1, pos + 1 + nf) =~= serialize(*f)) by {
                assert forall|i: int| 0 <= i < nf implies toks[pos + 1 + i] == serialize(*f)[i] by {
                    assert(toks[pos + 1 + i] == whole[1 + i]);
                }
            }
            lemma_parse_serialized(toks, pos + 1 + nf, *x, stack);
            lemma_parse_serialized(toks, pos + 1, *f, stack.push(*x));
            let below = stack.push(*x).push(*f);
            assert(below.drop_last().drop_last() =~= stack);
        },
    }
}

/// Round trip: the tokens that spell an expression are read back as that
/// expression.
pub proof fn law_parse_serialized(t: Term)
    ensures
        parse_expression(serialize(t)) == Ok::<Term, ParseError>(t),
{
    let toks = serialize(t);
    assert(toks.subrange(0, toks.len() as int) =~= toks);
    lemma_parse_serialized(toks, 0, t, Seq::empty());
}

/// What is left to read from `from` on spells the stack that reading it
/// leaves.
pub proof fn lemma_parsed_is_serialized(toks: Seq<Option<Token>>, from: int, stack: Seq<Term>)
    requires
        0 <= from <= toks.len(),
        parse_suffix(toks, from) == Ok::<Seq<Term>, ParseError>(stack),
    ensures
        toks.subrange(from, toks.len() as int) == serialize_stack(stack),
    decreases toks.len() - from,
{
    if from == toks.len() {
    } else {
        let below = parse_suffix(toks, from + 1)->Ok_0;
        lemma_parsed_is_serialized(toks, from + 1, below);
        let rest = toks.subrange(from + 1, toks.len() as int);
        assert(toks.subrange(from, toks.len() as int) =~= seq![toks[from]] + rest);
        match toks[from] {
            None => {},
            Some(Token::Atom(name)) => {
                assert(stack.drop_last() =~= below);
            },
            Some(Token::Ap) => {
                let f = below[below.len() - 1];
                let x = below[below.len() - 2];
                let bottom = below.drop_last().drop_last();
                assert(stack.drop_last() =~= bottom);
                assert(serialize_stack(below) == serialize(f) + serialize_stack(
                    below.drop_last(),
                ));
            },
        }
    }
}

/// Only the tokens that spell an expression are read as that expression.
pub proof fn law_parsed_is_serialized(toks: Seq<Option<Token>>, t: Term)
    requires
        parse_expression(toks) == Ok::<Term, ParseError>(t),
    ensures
        toks == serialize(t),
{
    let stack = parse_suffix(toks, 0)->Ok_0;
    lemma_parsed_is_serialized(toks, 0, stack);
    assert(serialize_stack(stack.drop_last()) =~= Seq::<Option<Token>>::empty());
}

} // verus!
