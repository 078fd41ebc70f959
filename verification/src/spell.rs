//! The serializer: from a node of the graph back to the text that spells
//! its expression in prefix form, which the deserializer reads back as the
//! same expression.

use vstd::prelude::*;
use vstd::string::StringSliceAdditionalSpecFns;
use crate::graph::{Expr, ExprRef, Graph, GraphView};
use crate::name::Name;
use crate::parse::{
    expression_of, law_parse_serialized, lex, operator_of, serialize, sigil_id, token_of,
    ParseError, Token,
};
use crate::term::Term;
use crate::text::{
    all_digits, digits_value, integer_of, is_digit, tokens, COLON, LETTER_X, MINUS, SPACE, ZERO,
};

verus! {

/// The decimal digits of `n`, without leading zeros.
pub open spec fn digits_text(n: nat) -> Seq<u8>
    decreases n,
{
    if n < 10 {
        seq![(ZERO + n) as u8]
    } else {
        digits_text(n / 10).push((ZERO + n % 10) as u8)
    }
}

/// The decimal text of the integer `i`, with `-` in front where it is
/// negative.
pub open spec fn decimal_text(i: int) -> Seq<u8> {
    if i < 0 {
        seq![MINUS] + digits_text((-i) as nat)
    } else {
        digits_text(i as nat)
    }
}

/// The digits of a number spell the number.
pub proof fn lemma_digits_text(n: nat)
    ensures
        digits_text(n).len() >= 1,
        all_digits(digits_text(n)),
        digits_value(digits_text(n)) == n,
    decreases n,
{
    if n < 10 {
        let s = digits_text(n);
        assert(digits_value(s.drop_last()) == 0);
    } else {
        lemma_digits_text(n / 10);
        let s = digits_text(n);
        assert(s.drop_last() =~= digits_text(n / 10));
        assert forall|i: int| 0 <= i < s.len() implies is_digit(#[trigger] s[i]) by {}
    }
}

/// Writes the decimal digits of `n` at the end of `out`.
pub fn write_digits(n: u64, out: &mut Vec<u8>)
    ensures
        final(out)@ == old(out)@ + digits_text(n as nat),
    decreases n,
{
    if n >= 10 {
        write_digits(n / 10, out);
    }
    let digit: u8 = (n % 10) as u8;
    out.push(ZERO + digit);
}

/// Writes the decimal text of `i` at the end of `out`.
pub fn write_integer(i: i64, out: &mut Vec<u8>)
    ensures
        final(out)@ == old(out)@ + decimal_text(i as int),
{
    if i < 0 {
        out.push(MINUS);
        let magnitude: u64 = if i == i64::MIN {
            9223372036854775808u64
        } else {
            (0 - i) as u64
        };
        write_digits(magnitude, out);
    } else {
        write_digits(i as u64, out);
    }
}

/// The text of a name: the keyword of an operator, the decimal text of an
/// integer, `:` and the id of a function, `x` and the id of a variable.
pub open spec fn spell_name(name: Name) -> Seq<u8> {
    match name {
        Name::Int(i) => decimal_text(i as int),
        Name::Function(id) => seq![COLON] + digits_text(id as nat),
        Name::Variable(id) => seq![LETTER_X] + digits_text(id as nat),
        Name::Add => "add".spec_bytes(),
        Name::I => "i".spec_bytes(),
        Name::T => "t".spec_bytes(),
        Name::F => "f".spec_bytes(),
        Name::Mul => "mul".spec_bytes(),
        Name::Div => "div".spec_bytes(),
        Name::Eq => "eq".spec_bytes(),
        Name::Lt => "lt".spec_bytes(),
        Name::Neg => "neg".spec_bytes(),
        Name::S => "s".spec_bytes(),
        Name::C => "c".spec_bytes(),
        Name::B => "b".spec_bytes(),
        Name::Cons => "cons".spec_bytes(),
        Name::Car => "car".spec_bytes(),
        Name::Cdr => "cdr".spec_bytes(),
        Name::Nil => "nil".spec_bytes(),
        Name::Isnil => "isnil".spec_bytes(),
    }
}

/// The text of a token.
pub open spec fn spell_token(token: Token) -> Seq<u8> {
    match token {
        Token::Ap => "ap".spec_bytes(),
        Token::Atom(name) => spell_name(name),
    }
}

/// The text of an expression in prefix form: its tokens with one space
/// between them.
pub open spec fn text_of(t: Term) -> Seq<u8>
    decreases t,
{
    match t {
        Term::Atom(name) => spell_name(name),
        Term::Ap(f, x) => "ap".spec_bytes() + seq![SPACE] + text_of(*f) + seq![SPACE] + text_of(
            *x,
        ),
    }
}

/// The bytes of the keywords.
pub proof fn lemma_keywords()
    ensures
        "ap".spec_bytes() == seq![97u8, 112u8],
        "add".spec_bytes() == seq![97u8, 100u8, 100u8],
        "i".spec_bytes() == seq![105u8],
        "t".spec_bytes() == seq![116u8],
        "f".spec_bytes() == seq![102u8],
        "mul".spec_bytes() == seq![109u8, 117u8, 108u8],
        "div".spec_bytes() == seq![100u8, 105u8, 118u8],
        "eq".spec_bytes() == seq![101u8, 113u8],
        "lt".spec_bytes() == seq![108u8, 116u8],
        "neg".spec_bytes() == seq![110u8, 101u8, 103u8],
        "s".spec_bytes() == seq![115u8],
        "c".spec_bytes() == seq![99u8],
        "b".spec_bytes() == seq![98u8],
        "cons".spec_bytes() == seq![99u8, 111u8, 110u8, 115u8],
        "car".spec_bytes() == seq![99u8, 97u8, 114u8],
        "cdr".spec_bytes() == seq![99u8, 100u8, 114u8],
        "nil".spec_bytes() == seq![110u8, 105u8, 108u8],
        "isnil".spec_bytes() == seq![105u8, 115u8, 110u8, 105u8, 108u8],
{
    reveal_strlit("ap");
    reveal_strlit("add");
    reveal_strlit("i");
    reveal_strlit("t");
    reveal_strlit("f");
    reveal_strlit("mul");
    reveal_strlit("div");
    reveal_strlit("eq");
    reveal_strlit("lt");
    reveal_strlit("neg");
    reveal_strlit("s");
    reveal_strlit("c");
    reveal_strlit("b");
    reveal_strlit("cons");
    reveal_strlit("car");
    reveal_strlit("cdr");
    reveal_strlit("nil");
    reveal_strlit("isnil");
    vstd::string::is_ascii_spec_bytes("ap");
    vstd::string::is_ascii_spec_bytes("add");
    vstd::string::is_ascii_spec_bytes("i");
    vstd::string::is_ascii_spec_bytes("t");
    vstd::string::is_ascii_spec_bytes("f");
    vstd::string::is_ascii_spec_bytes("mul");
    vstd::string::is_ascii_spec_bytes("div");
    vstd::string::is_ascii_spec_bytes("eq");
    vstd::string::is_ascii_spec_bytes("lt");
    vstd::string::is_ascii_spec_bytes("neg");
    vstd::string::is_ascii_spec_bytes("s");
    vstd::string::is_ascii_spec_bytes("c");
    vstd::string::is_ascii_spec_bytes("b");
    vstd::string::is_ascii_spec_bytes("cons");
    vstd::string::is_ascii_spec_bytes("car");
    vstd::string::is_ascii_spec_bytes("cdr");
    vstd::string::is_ascii_spec_bytes("nil");
    vstd::string::is_ascii_spec_bytes("isnil");
}

/// A keyword is made of small letters, one at least and five at most.
pub open spec fn is_word(s: Seq<u8>) -> bool {
    &&& 1 <= s.len() <= 5
    &&& forall|i: int| 0 <= i < s.len() ==> 97 <= #[trigger] s[i] <= 120
}

/// The text of a keyword is read back as the keyword, and holds no space.
proof fn lemma_keyword_read_back(token: Token)
    requires
        token matches Token::Atom(name) ==> !(name is Int) && !(name is Function) && !(
        name is Variable),
    ensures
        token_of(spell_token(token)) == Some(token),
        is_word(spell_token(token)),
{
    lemma_keywords();
    let s = spell_token(token);
}

/// A text that starts with a byte that is no small letter is neither `ap`
/// nor the keyword of an operator.
proof fn lemma_not_a_keyword(s: Seq<u8>)
    requires
        s.len() >= 1,
        s[0] < 97 || s[0] == LETTER_X,
    ensures
        s != "ap".spec_bytes(),
        operator_of(s) is None,
{
    lemma_keywords();
}

/// The decimal text of an integer is read back as the integer.
proof fn lemma_integer_read_back(i: i64)
    ensures
        integer_of(decimal_text(i as int)) == Some(i),
        decimal_text(i as int).len() >= 1,
        decimal_text(i as int)[0] == MINUS || is_digit(decimal_text(i as int)[0]),
        forall|k: int|
            0 <= k < decimal_text(i as int).len() ==> #[trigger] decimal_text(i as int)[k]
                != SPACE,
{
    let s = decimal_text(i as int);
    if i < 0 {
        let d = digits_text((-i) as nat);
        lemma_digits_text((-i) as nat);
        assert(s.skip(1) =~= d);
        assert forall|k: int| 0 <= k < s.len() implies #[trigger] s[k] != SPACE by {}
    } else {
        lemma_digits_text(i as nat);
        assert forall|k: int| 0 <= k < s.len() implies #[trigger] s[k] != SPACE by {}
    }
}

/// The text of an id after a sigil is read back as the id.
proof fn lemma_sigil_read_back(sigil: u8, id: u32)
    requires
        sigil == COLON || sigil == LETTER_X,
    ensures
        sigil_id(seq![sigil] + digits_text(id as nat), sigil) == Some(id),
        integer_of(seq![sigil] + digits_text(id as nat)) is None,
        sigil == LETTER_X ==> sigil_id(seq![sigil] + digits_text(id as nat), COLON) is None,
        forall|k: int|
            0 <= k < (seq![sigil] + digits_text(id as nat)).len() ==> #[trigger] (seq![sigil]
                + digits_text(id as nat))[k] != SPACE,
{
    let d = digits_text(id as nat);
    let s = seq![sigil] + d;
    lemma_digits_text(id as nat);
    assert(s.skip(1) =~= d);
    assert forall|k: int| 0 <= k < s.len() implies #[trigger] s[k] != SPACE by {}
}

/// The text of a token is read back as the token; it is not empty and
/// holds no space.
pub proof fn lemma_token_read_back(token: Token)
    ensures
        token_of(spell_token(token)) == Some(token),
        spell_token(token).len() >= 1,
        forall|k: int|
            0 <= k < spell_token(token).len() ==> #[trigger] spell_token(token)[k] != SPACE,
{
    let s = spell_token(token);
    match token {
        Token::Atom(Name::Int(i)) => {
            lemma_integer_read_back(i);
            lemma_not_a_keyword(s);
        },
        Token::Atom(Name::Function(id)) => {
            lemma_sigil_read_back(COLON, id);
            lemma_not_a_keyword(s);
        },
        Token::Atom(Name::Variable(id)) => {
            lemma_sigil_read_back(LETTER_X, id);
            lemma_not_a_keyword(s);
        },
        _ => {
            lemma_keyword_read_back(token);
        },
    }
}

/// A text without a separator is its own single token.
pub proof fn lemma_tokens_word(w: Seq<u8>, sep: u8)
    requires
        w.len() >= 1,
        forall|k: int| 0 <= k < w.len() ==> #[trigger] w[k] != sep,
    ensures
        tokens(w, sep) == seq![w],
    decreases w.len(),
{
    let front = w.drop_last();
    if front.len() == 0 {
        assert(tokens(front, sep) =~= Seq::<Seq<u8>>::empty());
        assert(seq![w.last()] =~= w);
    } else {
        lemma_tokens_word(front, sep);
        assert(front.push(w.last()) =~= w);
    }
}

/// The tokens of two texts with a separator between them are the tokens of
/// the first and then those of the second.
pub proof fn lemma_tokens_joined(a: Seq<u8>, b: Seq<u8>, sep: u8)
    ensures
        tokens(a + seq![sep] + b, sep) == tokens(a, sep) + tokens(b, sep),
    decreases b.len(),
{
    let s = a + seq![sep] + b;
    if b.len() == 0 {
        assert(s.drop_last() =~= a);
    } else {
        let front = b.drop_last();
        let c = b.last();
        let shorter = a + seq![sep] + front;
        lemma_tokens_joined(a, front, sep);
        assert(s.drop_last() =~= shorter);
        let ta = tokens(a, sep);
        let tf = tokens(front, sep);
    }
}

/// The texts of the tokens `toks`.
pub open spec fn spell_all(toks: Seq<Option<Token>>) -> Seq<Seq<u8>> {
    Seq::new(toks.len(), |i: int| spell_token(toks[i]->0))
}

/// Every token of the tokens that spell an expression is a token.
pub proof fn lemma_serialize_tokens(t: Term)
    ensures
        serialize(t).len() >= 1,
        forall|i: int| 0 <= i < serialize(t).len() ==> (#[trigger] serialize(t)[i]) is Some,
    decreases t,
{
    match t {
        Term::Atom(_) => {},
        Term::Ap(f, x) => {
            lemma_serialize_tokens(*f);
            lemma_serialize_tokens(*x);
        },
    }
}

/// The tokens of the text of an expression are the texts of the tokens
/// that spell it.
pub proof fn lemma_tokens_of_text(t: Term)
    ensures
        tokens(text_of(t), SPACE) == spell_all(serialize(t)),
    decreases t,
{
    match t {
        Term::Atom(name) => {
            lemma_token_read_back(Token::Atom(name));
            lemma_tokens_word(spell_name(name), SPACE);
        },
        Term::Ap(f, x) => {
            let ap = "ap".spec_bytes();
            let tf = text_of(*f);
            let tx = text_of(*x);
            lemma_tokens_of_text(*f);
            lemma_tokens_of_text(*x);
            lemma_token_read_back(Token::Ap);
            lemma_tokens_word(ap, SPACE);
            lemma_tokens_joined(tf, tx, SPACE);
            lemma_tokens_joined(ap, tf + seq![SPACE] + tx, SPACE);
            assert(text_of(t) =~= ap + seq![SPACE] + (tf + seq![SPACE] + tx));
            let sf = serialize(*f);
            let sx = serialize(*x);
        },
    }
}

/// The serializer and the deserializer are inverse to each other: the text
/// of an expression is read back as that expression.
pub proof fn law_text_round_trip(t: Term)
    ensures
        expression_of(text_of(t)) == Ok::<Term, ParseError>(t),
{
    lemma_tokens_of_text(t);
    lemma_serialize_tokens(t);
    let toks = serialize(t);
    assert(lex(spell_all(toks)) =~= toks) by {
        assert forall|i: int| 0 <= i < toks.len() implies lex(spell_all(toks))[i] == toks[i] by {
            lemma_token_read_back(toks[i]->0);
        }
    }
    law_parse_serialized(t);
}

/// Writes the keyword `word` at the end of `out`.
fn write_word(word: &str, out: &mut Vec<u8>)
    ensures
        final(out)@ == old(out)@ + word.spec_bytes(),
{
    out.extend_from_slice(word.as_bytes());
}

/// Writes the text of `name` at the end of `out`.
pub fn write_name(name: Name, out: &mut Vec<u8>)
    ensures
        final(out)@ == old(out)@ + spell_name(name),
{
    match name {
        Name::Int(i) => write_integer(i, out),
        Name::Function(id) => {
            out.push(COLON);
            write_digits(id as u64, out);
        },
        Name::Variable(id) => {
            out.push(LETTER_X);
            write_digits(id as u64, out);
        },
        Name::Add => write_word("add", out),
        Name::I => write_word("i", out),
        Name::T => write_word("t", out),
        Name::F => write_word("f", out),
        Name::Mul => write_word("mul", out),
        Name::Div => write_word("div", out),
        Name::Eq => write_word("eq", out),
        Name::Lt => write_word("lt", out),
        Name::Neg => write_word("neg", out),
        Name::S => write_word("s", out),
        Name::C => write_word("c", out),
        Name::B => write_word("b", out),
        Name::Cons => write_word("cons", out),
        Name::Car => write_word("car", out),
        Name::Cdr => write_word("cdr", out),
        Name::Nil => write_word("nil", out),
        Name::Isnil => write_word("isnil", out),
    }
}

/// The texts of the nodes that are still to be written, from the top of the
/// stack down, each with a space in front.
pub open spec fn pending_text(g: GraphView, stack: Seq<ExprRef>) -> Seq<u8>
    decreases stack.len(),
{
    if stack.len() == 0 {
        Seq::empty()
    } else {
        seq![SPACE] + text_of(g.term(stack.last())) + pending_text(g, stack.drop_last())
    }
}

/// The sizes of the expressions of the nodes, summed up.
pub open spec fn pending_size(g: GraphView, stack: Seq<ExprRef>) -> nat
    decreases stack.len(),
{
    if stack.len() == 0 {
        0
    } else {
        pending_size(g, stack.drop_last()) + g.term(stack.last()).size()
    }
}

impl Graph {
    /// Writes the first token of the node `item` and leaves its function
    /// part and its argument, where it has them, on the stack.
    fn write_node(&self, item: ExprRef, out: &mut Vec<u8>, stack: &mut Vec<ExprRef>)
        requires
            self.wf(),
            self@.contains(item),
            forall|i: int| 0 <= i < old(stack)@.len() ==> self@.contains(#[trigger] old(stack)@[i]),
        ensures
            forall|i: int|
                0 <= i < final(stack)@.len() ==> self@.contains(#[trigger] final(stack)@[i]),
            final(out)@ + pending_text(self@, final(stack)@) == old(out)@ + text_of(
                self@.term(item),
            ) + pending_text(self@, old(stack)@),
            pending_size(self@, final(stack)@) + 1 == pending_size(self@, old(stack)@)
                + self@.term(item).size(),
    {
        let ghost rest = stack@;
        let ghost tail = pending_text(self@, rest);
        proof {
            assert(self@.node_wf(item as int));
        }
        match self.expr(item) {
            Expr::Atom(name) => {
                write_name(name, out);
            },
            Expr::Ap(f, x) => {
                write_word("ap", out);
                stack.push(x);
                let ghost mid = stack@;
                stack.push(f);
                proof {
                    let tf = text_of(self@.term(f));
                    let tx = text_of(self@.term(x));
                    assert(mid.drop_last() =~= rest);
                    assert(stack@.drop_last() =~= mid);
                    assert(pending_text(self@, mid) == seq![SPACE] + tx + tail);
                    assert(pending_size(self@, mid) == pending_size(self@, rest) + self@.term(
                        x,
                    ).size());
                }
            },
        }
    }

    /// The text that spells the expression of the node `e` in prefix form:
    /// its tokens with one space between them. The nodes that are still to
    /// be written wait on a stack, so that the call stack does not grow with
    /// the depth of the expression.
    pub fn serialize(&self, e: ExprRef) -> (text: Vec<u8>)
        requires
            self.wf(),
            self@.contains(e),
        ensures
            text@ == text_of(self@.term(e)),
    {
        let mut out: Vec<u8> = Vec::new();
        let mut stack: Vec<ExprRef> = Vec::new();
        self.write_node(e, &mut out, &mut stack);
        while stack.len() > 0
            invariant
                self.wf(),
                forall|i: int| 0 <= i < stack@.len() ==> self@.contains(#[trigger] stack@[i]),
                text_of(self@.term(e)) == out@ + pending_text(self@, stack@),
            decreases pending_size(self@, stack@),
        {
            let item = stack[stack.len() - 1];
            stack.pop();
            out.push(SPACE);
            self.write_node(item, &mut out, &mut stack);
        }
        out
    }
}

} // verus!
