//! The parser and label resolver.
//!
//! Labels are resolved against a table built from the entire token stream
//! before any token is parsed, so forward references are legal. Each token
//! then translates into exactly one operation or exactly one parse error,
//! position for position: recognition tries, in order, an unsigned byte
//! literal, the fixed keyword table, a `;name` label reference, a `name:`
//! label declaration (which parses to a no-op), and otherwise fails.

use crate::machine::{prog_view, Operation};
use crate::text::{str_eq, Location, LocationModel};
use crate::tokenizer::{Token, TokenModel, Tokenizer};
use vstd::prelude::*;
use vstd::string::*;

verus! {

/// Whether `c` is a decimal digit character.
pub open spec fn is_dec_digit(c: char) -> bool {
    48 <= (c as u32) <= 57
}

/// The numeric value of a decimal digit character.
pub open spec fn digit_val(c: char) -> int {
    (c as u32) - 48
}

/// Whether every character of `s` is a decimal digit.
pub open spec fn all_digits(s: Seq<char>) -> bool {
    forall|k: int| 0 <= k < s.len() ==> is_dec_digit(s[k])
}

/// The value of a digit string read most significant digit first.
pub open spec fn digits_val(s: Seq<char>) -> int
    decreases s.len(),
{
    if s.len() == 0 {
        0
    } else {
        digits_val(s.drop_last()) * 10 + digit_val(s.last())
    }
}

/// The digit part of an integer literal: an optional leading `+` sign is
/// not part of the digits.
pub open spec fn u8_digits(c: Seq<char>) -> Seq<char> {
    if c.len() > 0 && c[0] == '+' {
        c.drop_first()
    } else {
        c
    }
}

/// Whether `c` is an unsigned 8-bit integer literal: an optional `+`, then
/// one or more decimal digits, with value below 256.
pub open spec fn is_u8_literal(c: Seq<char>) -> bool {
    let d = u8_digits(c);
    d.len() > 0 && all_digits(d) && digits_val(d) < 256
}

/// The value of an unsigned 8-bit integer literal.
pub open spec fn u8_literal_val(c: Seq<char>) -> int {
    digits_val(u8_digits(c))
}

proof fn lemma_digits_val_nonneg(s: Seq<char>)
    requires
        all_digits(s),
    ensures
        digits_val(s) >= 0,
    decreases s.len(),
{
    if s.len() > 0 {
        assert(all_digits(s.drop_last())) by {
            assert(forall|k: int|
                0 <= k < s.len() - 1 ==> s.drop_last()[k] == s[k] && is_dec_digit(s[k]));
        }
        lemma_digits_val_nonneg(s.drop_last());
    }
}

/// Appending digits never decreases the value of a digit string.
proof fn lemma_digits_val_prefix(s: Seq<char>, j: int)
    requires
        0 <= j <= s.len(),
        all_digits(s),
    ensures
        digits_val(s.take(j)) <= digits_val(s),
    decreases s.len() - j,
{
    if j == s.len() {
        assert(s.take(j) =~= s);
    } else {
        let t = s.drop_last();
        assert(all_digits(t)) by {
            assert(forall|k: int| 0 <= k < t.len() ==> t[k] == s[k] && is_dec_digit(s[k]));
        }
        assert(s.take(j) =~= t.take(j));
        lemma_digits_val_prefix(t, j);
        lemma_digits_val_nonneg(t);
        assert(digits_val(s) == digits_val(t) * 10 + digit_val(s.last()));
        assert(digit_val(s.last()) >= 0);
    }
}

/// Parses an unsigned 8-bit integer literal.
pub fn parse_u8(s: &str) -> (r: Option<u8>)
    ensures
        r is Some <==> is_u8_literal(s@),
        r is Some ==> r.unwrap() as int == u8_literal_val(s@),
{
    let n = s.unicode_len();
    let has_sign = n > 0 && s.get_char(0) == '+';
    let start: usize = if has_sign {
        1
    } else {
        0
    };
    let ghost d = u8_digits(s@);
    proof {
        assert(d =~= s@.skip(start as int));
    }
    if n == start {
        return None;
    }
    let mut acc: u32 = 0;
    let mut i: usize = start;
    while i < n
        invariant
            n == s@.len(),
            start <= i <= n,
            d == u8_digits(s@),
            d == s@.skip(start as int),
            forall|k: int| start <= k < i ==> is_dec_digit(s@[k]),
            acc <= 255,
            acc as int == digits_val(s@.subrange(start as int, i as int)),
        decreases n - i,
    {
        let c = s.get_char(i);
        let cv = c as u32;
        if cv < 48 || cv > 57 {
            proof {
                assert(d[i - start] == s@[i as int]);
                assert(!all_digits(d));
            }
            return None;
        }
        let dv = cv - 48;
        let newacc = acc * 10 + dv;
        proof {
            let pre = s@.subrange(start as int, i as int);
            let cur = s@.subrange(start as int, i as int + 1);
            assert(cur.drop_last() =~= pre);
            assert(cur.last() == s@[i as int]);
            assert(newacc as int == digits_val(cur));
        }
        if newacc > 255 {
            proof {
                if is_u8_literal(s@) {
                    assert(all_digits(d));
                    assert(d.take(i + 1 - start) =~= s@.subrange(start as int, i as int + 1));
                    lemma_digits_val_prefix(d, i + 1 - start);
                }
            }
            return None;
        }
        acc = newacc;
        i = i + 1;
    }
    proof {
        assert(s@.subrange(start as int, n as int) =~= d);
        assert(forall|k: int| 0 <= k < d.len() ==> d[k] == s@[k + start] && is_dec_digit(d[k]));
    }
    Some(acc as u8)
}

/// The fixed keyword table, mapping a word to its operation.
pub open spec fn keyword_op(c: Seq<char>) -> Option<Operation> {
    if c == "put-char"@ {
        Some(Operation::PrintAscii)
    } else if c == "div-u8"@ {
        Some(Operation::DivU8)
    } else if c == "mul-u8"@ {
        Some(Operation::MulU8)
    } else if c == "sub-u8"@ {
        Some(Operation::SubU8)
    } else if c == "ass-u8"@ {
        Some(Operation::AddU8)
    } else if c == "debug"@ {
        Some(Operation::Debug)
    } else if c == "print-u8"@ {
        Some(Operation::PrintU8)
    } else if c == "print-u16"@ {
        Some(Operation::PrintU16)
    } else if c == "print-u32"@ {
        Some(Operation::PrintU32)
    } else if c == "print-u64"@ {
        Some(Operation::PrintU64)
    } else if c == "exit"@ {
        Some(Operation::Exit)
    } else if c == "call"@ {
        Some(Operation::Call)
    } else if c == "return"@ {
        Some(Operation::Return)
    } else {
        None
    }
}

/// Whether a token declares a label: its content ends with a colon; the
/// name is the content without that colon.
pub open spec fn is_label_decl(c: Seq<char>) -> bool {
    c.len() > 0 && c.last() == ':'
}

/// The name a label declaration declares.
pub open spec fn label_name(c: Seq<char>) -> Seq<char> {
    c.drop_last()
}

/// The label table of a token sequence: each declared name maps to the
/// index of its declaration token; on duplicate names the last declaration
/// wins.
pub open spec fn spec_labels(toks: Seq<TokenModel>) -> Map<Seq<char>, int>
    decreases toks.len(),
{
    if toks.len() == 0 {
        Map::empty()
    } else {
        let m = spec_labels(toks.drop_last());
        let t = toks.last();
        if is_label_decl(t.content) {
            m.insert(label_name(t.content), toks.len() - 1)
        } else {
            m
        }
    }
}

/// The label table as a partial lookup.
pub open spec fn label_get(m: Map<Seq<char>, int>, k: Seq<char>) -> Option<int> {
    if m.contains_key(k) {
        Some(m[k])
    } else {
        None
    }
}

/// Mathematical model of a [`ParseErrorType`].
pub ghost enum ParseErrorTypeModel {
    UnknownSymbol,
    UndefinedLabel(Seq<char>),
}

/// Why a token failed to parse.
#[derive(Debug, Clone)]
pub enum ParseErrorType {
    UnknownSymbol,
    UndefinedLabel(String),
}

impl View for ParseErrorType {
    type V = ParseErrorTypeModel;

    open spec fn view(&self) -> ParseErrorTypeModel {
        match self {
            ParseErrorType::UnknownSymbol => ParseErrorTypeModel::UnknownSymbol,
            ParseErrorType::UndefinedLabel(l) => ParseErrorTypeModel::UndefinedLabel(l@),
        }
    }
}

/// Mathematical model of a [`ParseError`].
pub ghost struct ParseErrorModel {
    pub typ: ParseErrorTypeModel,
    pub cause: TokenModel,
}

/// A parse failure together with the token that caused it.
#[derive(Debug)]
pub struct ParseError {
    pub typ: ParseErrorType,
    pub cause: Token,
}

impl View for ParseError {
    type V = ParseErrorModel;

    open spec fn view(&self) -> ParseErrorModel {
        ParseErrorModel { typ: self.typ@, cause: self.cause@ }
    }
}

/// The diagnostic text of a parse error kind.
pub open spec fn parse_error_type_str(t: ParseErrorTypeModel) -> Seq<char> {
    match t {
        ParseErrorTypeModel::UnknownSymbol => "Unknown symbol"@,
        ParseErrorTypeModel::UndefinedLabel(l) => "Undefined label `"@ + l + "`"@,
    }
}

/// The diagnostic line of a parse error:
/// `location: Error: message, caused by `token``.
pub open spec fn parse_error_str(e: ParseErrorModel) -> Seq<char> {
    crate::text::location_str(e.cause.location) + ": Error: "@ + parse_error_type_str(e.typ)
        + ", caused by `"@ + e.cause.content + "`"@
}

impl ParseErrorType {
    /// Renders this error kind as its diagnostic text.
    pub fn message(&self) -> (s: String)
        ensures
            s@ == parse_error_type_str(self@),
    {
        match self {
            ParseErrorType::UnknownSymbol => String::from_str("Unknown symbol"),
            ParseErrorType::UndefinedLabel(l) => {
                let mut s = String::from_str("Undefined label `");
                s.append(l.as_str());
                s.append("`");
                proof {
                    assert(s@ =~= parse_error_type_str(self@));
                }
                s
            },
        }
    }
}

impl ParseError {
    /// Renders the full diagnostic line for this error.
    pub fn message(&self) -> (s: String)
        ensures
            s@ == parse_error_str(self@),
    {
        let mut s = self.cause.location.message();
        s.append(": Error: ");
        let t = self.typ.message();
        s.append(t.as_str());
        s.append(", caused by `");
        s.append(self.cause.content.as_str());
        s.append("`");
        proof {
            assert(s@ =~= parse_error_str(self@));
        }
        s
    }
}

/// What one token parses to, given the label table: exactly one operation
/// or exactly one parse error.
pub open spec fn spec_parse_token(c: Seq<char>, labels: Map<Seq<char>, int>) -> Result<
    Operation,
    ParseErrorTypeModel,
> {
    if is_u8_literal(c) {
        Ok(Operation::PushByte(u8_literal_val(c) as u8))
    } else if keyword_op(c) is Some {
        Ok(keyword_op(c).unwrap())
    } else if c.len() > 0 && c[0] == ';' {
        let name = c.drop_first();
        match label_get(labels, name) {
            Some(i) => Ok(Operation::PushLong(i as u64)),
            None => Err(ParseErrorTypeModel::UndefinedLabel(name)),
        }
    } else if is_label_decl(c) {
        Ok(Operation::Noop)
    } else {
        Err(ParseErrorTypeModel::UnknownSymbol)
    }
}

/// What a whole token sequence parses to: the operations in token order, or
/// the first parse error.
pub open spec fn spec_parse_seq(toks: Seq<TokenModel>, labels: Map<Seq<char>, int>) -> Result<
    Seq<(Operation, LocationModel)>,
    ParseErrorModel,
>
    decreases toks.len(),
{
    if toks.len() == 0 {
        Ok(Seq::empty())
    } else {
        match spec_parse_token(toks[0].content, labels) {
            Ok(op) => match spec_parse_seq(toks.drop_first(), labels) {
                Ok(rest) => Ok(seq![(op, toks[0].location)] + rest),
                Err(e) => Err(e),
            },
            Err(te) => Err(ParseErrorModel { typ: te, cause: toks[0] }),
        }
    }
}

spec fn toks_view(v: Seq<Token>) -> Seq<TokenModel> {
    v.map_values(|t: Token| t@)
}

spec fn entries_view(v: Seq<(String, u64)>) -> Seq<(Seq<char>, int)> {
    v.map_values(|p: (String, u64)| (p.0@, p.1 as int))
}

spec fn assoc_last(e: Seq<(Seq<char>, int)>, k: Seq<char>) -> Option<int>
    decreases e.len(),
{
    if e.len() == 0 {
        None
    } else if e.last().0 == k {
        Some(e.last().1)
    } else {
        assoc_last(e.drop_last(), k)
    }
}

fn lookup_label(labels: &Vec<(String, u64)>, name: &str) -> (r: Option<u64>)
    ensures
        match assoc_last(entries_view(labels@), name@) {
            Some(v) => r is Some && r.unwrap() as int == v,
            None => r is None,
        },
{
    let ghost e = entries_view(labels@);
    let mut j = labels.len();
    proof {
        assert(e.take(labels.len() as int) =~= e);
    }
    while j > 0
        invariant
            j <= labels.len(),
            e == entries_view(labels@),
            assoc_last(e, name@) == assoc_last(e.take(j as int), name@),
        decreases j,
    {
        if str_eq(labels[j - 1].0.as_str(), name) {
            proof {
                assert(e.take(j as int).last() == e[j - 1]);
                assert(e[j - 1].0 == labels@[j - 1].0@);
            }
            return Some(labels[j - 1].1);
        }
        proof {
            assert(e.take(j as int).drop_last() =~= e.take(j - 1));
        }
        j = j - 1;
    }
    proof {
        assert(e.take(0).len() == 0);
    }
    None
}

/// The parser: the drained token stream, a cursor, and the label table
/// built from the entire stream before parsing begins.
pub struct Parser {
    toks: Vec<Token>,
    pos: usize,
    labels: Vec<(String, u64)>,
}

impl Parser {
    /// The models of the tokens this parser was built over.
    pub closed spec fn program(&self) -> Seq<TokenModel> {
        toks_view(self.toks@)
    }

    /// How many tokens have been consumed so far.
    pub closed spec fn position(&self) -> int {
        self.pos as int
    }

    #[verifier::type_invariant]
    spec fn type_inv(&self) -> bool {
        &&& self.pos <= self.toks.len()
        &&& forall|k: Seq<char>|
            assoc_last(entries_view(self.labels@), k) == label_get(spec_labels(self.program()), k)
    }

    /// Drains the token stream and builds the label table from all of it.
    pub fn new(tokens: Tokenizer) -> (r: Parser)
        ensures
            r.program() == tokens.remaining(),
            r.position() == 0,
    {
        let ghost all = tokens.all_tokens();
        let ghost p0 = tokens.position();
        proof {
            use_type_invariant(&tokens);
        }
        let mut tokens = tokens;
        let mut toks: Vec<Token> = Vec::new();
        proof {
            assert(toks_view(toks@) =~= all.subrange(p0, p0));
        }
        loop
            invariant_except_break
                tokens.all_tokens() == all,
                0 <= p0 <= tokens.position() <= all.len(),
                toks_view(toks@) == all.subrange(p0, tokens.position()),
            ensures
                tokens.position() == all.len(),
                toks_view(toks@) == all.subrange(p0, all.len() as int),
            decreases all.len() - tokens.position(),
        {
            let ghost before = tokens.position();
            let ghost old_toks = toks@;
            match tokens.next() {
                Some(t) => {
                    toks.push(t);
                    proof {
                        assert(toks@ == old_toks.push(toks@.last()));
                        assert(toks@.last()@ == all[before]);
                        assert(toks_view(old_toks) == all.subrange(p0, before));
                        assert(before < all.len());
                        assert(toks_view(old_toks).len() == old_toks.len());
                        assert(old_toks.len() == before - p0);
                        assert(toks@.len() == before - p0 + 1);
                        assert(toks_view(toks@).len() == toks@.len());
                        assert forall|k: int| 0 <= k < toks@.len() implies toks_view(toks@)[k]
                            == all.subrange(p0, before + 1)[k] by {
                            assert(toks_view(toks@)[k] == toks@[k]@);
                            if k < toks@.len() - 1 {
                                assert(toks@[k] == old_toks[k]);
                                assert(toks_view(old_toks)[k] == old_toks[k]@);
                                assert(all.subrange(p0, before)[k] == all[p0 + k]);
                            } else {
                                assert(toks@[k] == toks@.last());
                            }
                            assert(all.subrange(p0, before + 1)[k] == all[p0 + k]);
                        }
                        assert(toks_view(toks@) =~= all.subrange(p0, before + 1));
                    }
                },
                None => {
                    break ;
                },
            }
        }
        proof {
            assert(all.subrange(p0, all.len() as int) =~= all.skip(p0));
        }
        let ghost prog = toks_view(toks@);
        let mut labels: Vec<(String, u64)> = Vec::new();
        let mut i: usize = 0;
        let n = toks.len();
        while i < n
            invariant
                n == toks.len(),
                i <= n,
                prog == toks_view(toks@),
                forall|k: Seq<char>|
                    assoc_last(entries_view(labels@), k) == label_get(
                        spec_labels(prog.take(i as int)),
                        k,
                    ),
            decreases n - i,
        {
            let ghost pre = prog.take(i as int);
            let ghost cur = prog.take(i as int + 1);
            proof {
                assert(cur.drop_last() =~= pre);
                assert(cur.last() == prog[i as int]);
            }
            let t = &toks[i];
            let clen = t.content.as_str().unicode_len();
            if clen > 0 && t.content.as_str().get_char(clen - 1) == ':' {
                let name = t.content.as_str().substring_char(0, clen - 1);
                let ghost old_entries = entries_view(labels@);
                labels.push((String::from_str(name), i as u64));
                proof {
                    let e = entries_view(labels@);
                    assert(e.last() == (name@, i as int));
                    assert(e.drop_last() =~= old_entries);
                    assert(name@ =~= label_name(prog[i as int].content));
                    assert(is_label_decl(prog[i as int].content));
                    assert(spec_labels(cur) == spec_labels(pre).insert(
                        label_name(prog[i as int].content),
                        i as int,
                    ));
                    assert forall|k: Seq<char>|
                        assoc_last(e, k) == label_get(spec_labels(cur), k) by {
                        if k == name@ {
                            assert(assoc_last(e, k) == Some(i as int));
                        } else {
                            assert(assoc_last(e, k) == assoc_last(old_entries, k));
                        }
                    }
                }
            } else {
                proof {
                    assert(!is_label_decl(prog[i as int].content));
                    assert(spec_labels(cur) == spec_labels(pre));
                }
            }
            i = i + 1;
        }
        proof {
            assert(prog.take(n as int) =~= prog);
        }
        Parser { toks, pos: 0, labels }
    }

    /// Parses the next token; `None` at the end of the stream.
    pub fn next(&mut self) -> (r: Option<Result<(Operation, Location), ParseError>>)
        ensures
            final(self).program() == old(self).program(),
            final(self).position() == if old(self).position() < old(self).program().len() {
                old(self).position() + 1
            } else {
                old(self).position()
            },
            old(self).position() >= old(self).program().len() ==> r is None,
            old(self).position() < old(self).program().len() ==> r is Some && ({
                let t = old(self).program()[old(self).position()];
                let labels = spec_labels(old(self).program());
                match r.unwrap() {
                    Ok((op, loc)) => spec_parse_token(t.content, labels) == Ok::<
                        Operation,
                        ParseErrorTypeModel,
                    >(op) && loc@ == t.location,
                    Err(e) => spec_parse_token(t.content, labels) matches Err(te) && e@
                        == ParseErrorModel { typ: te, cause: t },
                }
            }),
    {
        proof {
            use_type_invariant(&*self);
        }
        if self.pos >= self.toks.len() {
            return None;
        }
        let t = self.toks[self.pos].dup();
        self.pos = self.pos + 1;
        Some(parse_one(t, &self.labels, Ghost(self.program())))
    }
}

/// Translates one token, given the label table of `prog`.
fn parse_one(t: Token, labels: &Vec<(String, u64)>, Ghost(prog): Ghost<Seq<TokenModel>>) -> (r:
    Result<(Operation, Location), ParseError>)
    requires
        forall|k: Seq<char>|
            assoc_last(entries_view(labels@), k) == label_get(spec_labels(prog), k),
    ensures
        match r {
            Ok((op, loc)) => spec_parse_token(t@.content, spec_labels(prog)) == Ok::<
                Operation,
                ParseErrorTypeModel,
            >(op) && loc@ == t@.location,
            Err(e) => spec_parse_token(t@.content, spec_labels(prog)) matches Err(te) && e@
                == ParseErrorModel { typ: te, cause: t@ },
        },
{
    proof {
        reveal_strlit("put-char");
        reveal_strlit("div-u8");
        reveal_strlit("mul-u8");
        reveal_strlit("sub-u8");
        reveal_strlit("ass-u8");
        reveal_strlit("debug");
        reveal_strlit("print-u8");
        reveal_strlit("print-u16");
        reveal_strlit("print-u32");
        reveal_strlit("print-u64");
        reveal_strlit("exit");
        reveal_strlit("call");
        reveal_strlit("return");
    }
    let content = t.content.as_str();
    match parse_u8(content) {
        Some(b) => {
            return Ok((Operation::PushByte(b), t.location.dup()));
        },
        None => {},
    }
    if str_eq(content, "put-char") {
        return Ok((Operation::PrintAscii, t.location.dup()));
    }
    if str_eq(content, "div-u8") {
        return Ok((Operation::DivU8, t.location.dup()));
    }
    if str_eq(content, "mul-u8") {
        return Ok((Operation::MulU8, t.location.dup()));
    }
    if str_eq(content, "sub-u8") {
        return Ok((Operation::SubU8, t.location.dup()));
    }
    if str_eq(content, "ass-u8") {
        return Ok((Operation::AddU8, t.location.dup()));
    }
    if str_eq(content, "debug") {
        return Ok((Operation::Debug, t.location.dup()));
    }
    if str_eq(content, "print-u8") {
        return Ok((Operation::PrintU8, t.location.dup()));
    }
    if str_eq(content, "print-u16") {
        return Ok((Operation::PrintU16, t.location.dup()));
    }
    if str_eq(content, "print-u32") {
        return Ok((Operation::PrintU32, t.location.dup()));
    }
    if str_eq(content, "print-u64") {
        return Ok((Operation::PrintU64, t.location.dup()));
    }
    if str_eq(content, "exit") {
        return Ok((Operation::Exit, t.location.dup()));
    }
    if str_eq(content, "call") {
        return Ok((Operation::Call, t.location.dup()));
    }
    if str_eq(content, "return") {
        return Ok((Operation::Return, t.location.dup()));
    }
    let n = content.unicode_len();
    if n > 0 && content.get_char(0) == ';' {
        let name = content.substring_char(1, n);
        proof {
            assert(name@ =~= t@.content.drop_first());
        }
        match lookup_label(labels, name) {
            Some(v) => {
                return Ok((Operation::PushLong(v), t.location.dup()));
            },
            None => {
                return Err(
                    ParseError { typ: ParseErrorType::UndefinedLabel(String::from_str(name)), cause: t },
                );
            },
        }
    }
    if n > 0 && content.get_char(n - 1) == ':' {
        return Ok((Operation::Noop, t.location.dup()));
    }
    Err(ParseError { typ: ParseErrorType::UnknownSymbol, cause: t })
}

/// Builds a parser over a token stream; the label table covers the entire
/// stream, so forward references resolve.
pub fn parse_tokens(tokens: Tokenizer) -> (r: Parser)
    ensures
        r.program() == tokens.remaining(),
        r.position() == 0,
{
    Parser::new(tokens)
}

/// Tokenizes and parses a whole source text into a program: one
/// `(Operation, Location)` pair per token, or the first parse error.
pub fn parse_program(source: &str, path: Option<&str>) -> (r: Result<
    Vec<(Operation, Location)>,
    ParseError,
>)
    requires
        source@.len() < usize::MAX,
    ensures
        ({
            let toks = crate::tokenizer::spec_tokens(source@, crate::text::opt_str_view(path), 1, 1);
            let labels = spec_labels(toks);
            match r {
                Ok(ops) => spec_parse_seq(toks, labels) == Ok::<
                    Seq<(Operation, LocationModel)>,
                    ParseErrorModel,
                >(prog_view(ops@)),
                Err(e) => spec_parse_seq(toks, labels) == Err::<
                    Seq<(Operation, LocationModel)>,
                    ParseErrorModel,
                >(e@),
            }
        }),
{
    let tokens = crate::tokenizer::tokenize(source, path);
    let ghost tms = tokens.all_tokens();
    let mut parser = parse_tokens(tokens);
    let ghost labels = spec_labels(tms);
    let mut ops: Vec<(Operation, Location)> = Vec::new();
    proof {
        assert(tms.skip(0) =~= tms);
        assert(prog_view(ops@) =~= Seq::<(Operation, LocationModel)>::empty());
    }
    loop
        invariant
            tms == crate::tokenizer::spec_tokens(source@, crate::text::opt_str_view(path), 1, 1),
            parser.program() == tms,
            labels == spec_labels(tms),
            0 <= parser.position() <= tms.len(),
            spec_parse_seq(tms, labels) == (match spec_parse_seq(
                tms.skip(parser.position()),
                labels,
            ) {
                Ok(rest) => Ok::<Seq<(Operation, LocationModel)>, ParseErrorModel>(
                    prog_view(ops@) + rest,
                ),
                Err(e) => Err::<Seq<(Operation, LocationModel)>, ParseErrorModel>(e),
            }),
        decreases tms.len() - parser.position(),
    {
        let ghost p = parser.position();
        let ghost old_ops = ops@;
        match parser.next() {
            None => {
                proof {
                    assert(p == tms.len());
                    assert(tms.skip(p).len() == 0);
                    assert(prog_view(ops@) + Seq::<(Operation, LocationModel)>::empty()
                        =~= prog_view(ops@));
                }
                return Ok(ops);
            },
            Some(Ok((op, loc))) => {
                let ghost lm = loc@;
                ops.push((op, loc));
                proof {
                    assert(tms.skip(p).drop_first() =~= tms.skip(p + 1));
                    assert(tms.skip(p)[0] == tms[p]);
                    assert(lm == tms[p].location);
                    assert(ops@ == old_ops.push(ops@.last()));
                    assert(prog_view(old_ops).len() == old_ops.len());
                    assert(prog_view(ops@).len() == ops@.len());
                    assert forall|k: int| 0 <= k < ops@.len() implies prog_view(ops@)[k] == (
                    prog_view(old_ops) + seq![(op, lm)])[k] by {
                        assert(prog_view(ops@)[k] == (ops@[k].0, ops@[k].1@));
                        if k < ops@.len() - 1 {
                            assert(ops@[k] == old_ops[k]);
                            assert(prog_view(old_ops)[k] == (old_ops[k].0, old_ops[k].1@));
                        }
                    }
                    assert(prog_view(ops@) =~= prog_view(old_ops) + seq![(op, lm)]);
                    match spec_parse_seq(tms.skip(p + 1), labels) {
                        Ok(rest) => {
                            assert(prog_view(old_ops) + (seq![(op, lm)] + rest) =~= prog_view(ops@)
                                + rest);
                        },
                        Err(_) => {},
                    }
                }
            },
            Some(Err(e)) => {
                proof {
                    assert(tms.skip(p)[0] == tms[p]);
                }
                return Err(e);
            },
        }
    }
}

/// The label table resolves a declared name to the index of its
/// declaration token; when the name is not declared again later, that
/// index is the one in the table, wherever a reference stands, so forward
/// and backward references agree.
pub proof fn lemma_label_resolution(toks: Seq<TokenModel>, i: int)
    requires
        0 <= i < toks.len(),
        is_label_decl(toks[i].content),
        forall|j: int|
            i < j < toks.len() && is_label_decl(toks[j].content) ==> label_name(toks[j].content)
                != label_name(toks[i].content),
    ensures
        spec_labels(toks).contains_key(label_name(toks[i].content)),
        spec_labels(toks)[label_name(toks[i].content)] == i,
    decreases toks.len(),
{
    if i == toks.len() - 1 {
    } else {
        let pre = toks.drop_last();
        assert forall|j: int|
            i < j < pre.len() && is_label_decl(pre[j].content) implies label_name(pre[j].content)
            != label_name(toks[i].content) by {
            assert(pre[j] == toks[j]);
        }
        assert(pre[i] == toks[i]);
        lemma_label_resolution(pre, i);
        if is_label_decl(toks.last().content) {
            assert(toks.last() == toks[toks.len() - 1]);
            assert(label_name(toks.last().content) != label_name(toks[i].content));
        }
    }
}

/// A reference token `;name` to such a label parses to a push of that
/// label's instruction index.
pub proof fn lemma_label_reference_resolves(toks: Seq<TokenModel>, i: int)
    requires
        0 <= i < toks.len(),
        is_label_decl(toks[i].content),
        forall|j: int|
            i < j < toks.len() && is_label_decl(toks[j].content) ==> label_name(toks[j].content)
                != label_name(toks[i].content),
    ensures
        spec_parse_token(seq![';'] + label_name(toks[i].content), spec_labels(toks)) == Ok::<
            Operation,
            ParseErrorTypeModel,
        >(Operation::PushLong(i as u64)),
{
    lemma_label_resolution(toks, i);
    let c = seq![';'] + label_name(toks[i].content);
    reveal_strlit("put-char");
    reveal_strlit("div-u8");
    reveal_strlit("mul-u8");
    reveal_strlit("sub-u8");
    reveal_strlit("ass-u8");
    reveal_strlit("debug");
    reveal_strlit("print-u8");
    reveal_strlit("print-u16");
    reveal_strlit("print-u32");
    reveal_strlit("print-u64");
    reveal_strlit("exit");
    reveal_strlit("call");
    reveal_strlit("return");
    assert(c[0] == ';');
    assert(!is_dec_digit(c[0]));
    assert(!all_digits(u8_digits(c)));
    assert(keyword_op(c) is None);
    assert(c.drop_first() =~= label_name(toks[i].content));
}

/// Every token maps to exactly one operation or exactly one parse error:
/// a program that parses has exactly one operation per token, position
/// for position, and parsing fails exactly when some token fails.
pub proof fn lemma_parse_round_trip(toks: Seq<TokenModel>, labels: Map<Seq<char>, int>)
    ensures
        spec_parse_seq(toks, labels) matches Ok(ops) ==> ops.len() == toks.len() && (forall|i: int|
            0 <= i < toks.len() ==> spec_parse_token(toks[i].content, labels) == Ok::<
                Operation,
                ParseErrorTypeModel,
            >(ops[i].0) && ops[i].1 == toks[i].location),
        spec_parse_seq(toks, labels) matches Err(e) ==> exists|i: int|
            0 <= i < toks.len() && spec_parse_token(toks[i].content, labels) == Err::<
                Operation,
                ParseErrorTypeModel,
            >(e.typ) && e.cause == toks[i],
    decreases toks.len(),
{
    if toks.len() > 0 {
        let rest_toks = toks.drop_first();
        lemma_parse_round_trip(rest_toks, labels);
        match spec_parse_token(toks[0].content, labels) {
            Ok(op0) => {
                match spec_parse_seq(rest_toks, labels) {
                    Ok(rest) => {
                        let ops = seq![(op0, toks[0].location)] + rest;
                        assert(spec_parse_seq(toks, labels) == Ok::<
                            Seq<(Operation, LocationModel)>,
                            ParseErrorModel,
                        >(ops));
                        assert forall|i: int|
                            0 <= i < toks.len() implies spec_parse_token(toks[i].content, labels)
                            == Ok::<Operation, ParseErrorTypeModel>(ops[i].0) && ops[i].1
                            == toks[i].location by {
                            if i > 0 {
                                assert(rest_toks[i - 1] == toks[i]);
                                assert(ops[i] == rest[i - 1]);
                            }
                        }
                    },
                    Err(e) => {
                        let i0 = choose|i: int|
                            0 <= i < rest_toks.len() && spec_parse_token(
                                rest_toks[i].content,
                                labels,
                            ) == Err::<Operation, ParseErrorTypeModel>(e.typ) && e.cause
                                == rest_toks[i];
                        assert(rest_toks[i0] == toks[i0 + 1]);
                        assert(0 <= i0 + 1 < toks.len() && spec_parse_token(
                            toks[i0 + 1].content,
                            labels,
                        ) == Err::<Operation, ParseErrorTypeModel>(e.typ) && e.cause == toks[i0
                            + 1]);
                    },
                }
            },
            Err(te) => {
                let e = ParseErrorModel { typ: te, cause: toks[0] };
                assert(0 <= 0 < toks.len() && spec_parse_token(toks[0].content, labels) == Err::<
                    Operation,
                    ParseErrorTypeModel,
                >(e.typ) && e.cause == toks[0]);
            },
        }
    }
}

} // verus!
