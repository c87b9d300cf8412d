//! The reader: source text to S-expressions.
use crate::text::{chars_of, is_white_space, parse_i64, parse_i64_text, push_char, push_str, string_of, text_is, white_space};
use crate::CompileError;
use vstd::prelude::*;

verus! {

#[derive(Debug, PartialEq, Eq)]
pub enum SExpr {
    Number(i64),
    Bool(bool),
    Symbol(String),
    List(Vec<SExpr>),
}

/// The mathematical value of an [`SExpr`].
pub enum STerm {
    Number(i64),
    Bool(bool),
    Symbol(Seq<char>),
    List(Seq<STerm>),
}

pub open spec fn sterm_of(e: SExpr) -> STerm
    decreases e,
{
    match e {
        SExpr::Number(n) => STerm::Number(n),
        SExpr::Bool(b) => STerm::Bool(b),
        SExpr::Symbol(s) => STerm::Symbol(s@),
        SExpr::List(items) => STerm::List(sterms_of(items@)),
    }
}

pub open spec fn sterms_of(s: Seq<SExpr>) -> Seq<STerm>
    decreases s,
{
    if s.len() == 0 {
        Seq::empty()
    } else {
        sterms_of(s.drop_last()).push(sterm_of(s.last()))
    }
}

impl View for SExpr {
    type V = STerm;

    open spec fn view(&self) -> STerm {
        sterm_of(*self)
    }
}

pub proof fn lemma_sterms_of(s: Seq<SExpr>)
    ensures
        sterms_of(s).len() == s.len(),
        forall|i: int| 0 <= i < s.len() ==> #[trigger] sterms_of(s)[i] == sterm_of(s[i]),
    decreases s.len(),
{
    if s.len() > 0 {
        lemma_sterms_of(s.drop_last());
    }
}

#[derive(Debug, PartialEq, Eq)]
pub enum Token {
    Open,
    Close,
    Atom(String),
}

/// The mathematical value of a [`Token`].
pub enum Tok {
    Open,
    Close,
    Atom(Seq<char>),
}

impl View for Token {
    type V = Tok;

    open spec fn view(&self) -> Tok {
        match self {
            Token::Open => Tok::Open,
            Token::Close => Tok::Close,
            Token::Atom(a) => Tok::Atom(a@),
        }
    }
}

pub open spec fn toks_of(s: Seq<Token>) -> Seq<Tok> {
    s.map_values(|t: Token| t@)
}

/// Quote, quasiquote, unquote and strings: reader syntax the language does
/// not have.
pub open spec fn is_reader_mark(c: char) -> bool {
    c == '\'' || c == '`' || c == ',' || c == '"'
}

pub open spec fn reader_error(c: char) -> Seq<char> {
    "unsupported reader syntax starting with `"@ + seq![c] + "`"@
}

/// Where a comment that reaches `j` ends: just past the next newline.
pub open spec fn comment_end(cs: Seq<char>, j: int) -> int
    decreases cs.len() - j,
{
    if j >= cs.len() {
        cs.len() as int
    } else if cs[j] == '\n' {
        j + 1
    } else {
        comment_end(cs, j + 1)
    }
}

/// Where an atom that reaches `j` ends: at whitespace, a parenthesis, a
/// comment, reader syntax, or the end of the text.
pub open spec fn atom_end(cs: Seq<char>, j: int) -> int
    decreases cs.len() - j,
{
    if j >= cs.len() || is_white_space(cs[j]) || cs[j] == '(' || cs[j] == ')' || cs[j] == ';' || is_reader_mark(
        cs[j],
    ) {
        j
    } else {
        atom_end(cs, j + 1)
    }
}

/// The tokens of `cs` from `i` on, or the first reader error.
pub open spec fn tokens_from(cs: Seq<char>, i: int) -> Result<Seq<Tok>, Seq<char>>
    decreases cs.len() - i,
{
    if i < 0 || i >= cs.len() {
        Ok(Seq::empty())
    } else {
        let c = cs[i];
        if c == ';' {
            let j = comment_end(cs, i + 1);
            if i < j <= cs.len() {
                tokens_from(cs, j)
            } else {
                Ok(Seq::empty())
            }
        } else if c == '(' || c == ')' {
            match tokens_from(cs, i + 1) {
                Ok(rest) => Ok(seq![if c == '(' { Tok::Open } else { Tok::Close }] + rest),
                Err(m) => Err(m),
            }
        } else if is_reader_mark(c) {
            Err(reader_error(c))
        } else if is_white_space(c) {
            tokens_from(cs, i + 1)
        } else {
            let j = atom_end(cs, i + 1);
            if j < cs.len() && is_reader_mark(cs[j]) {
                Err(reader_error(cs[j]))
            } else if i < j <= cs.len() {
                match tokens_from(cs, j) {
                    Ok(rest) => Ok(seq![Tok::Atom(cs.subrange(i, j))] + rest),
                    Err(m) => Err(m),
                }
            } else {
                Ok(Seq::empty())
            }
        }
    }
}

proof fn lemma_comment_end(cs: Seq<char>, j: int)
    requires
        0 <= j,
    ensures
        j <= comment_end(cs, j) <= cs.len() || (j > cs.len() && comment_end(cs, j) == cs.len()),
        j < cs.len() ==> j < comment_end(cs, j),
    decreases cs.len() - j,
{
    if j < cs.len() && cs[j] != '\n' {
        lemma_comment_end(cs, j + 1);
    }
}

proof fn lemma_atom_end(cs: Seq<char>, j: int)
    requires
        0 <= j <= cs.len(),
    ensures
        j <= atom_end(cs, j) <= cs.len(),
        forall|k: int| j <= k < atom_end(cs, j) ==> !is_white_space(#[trigger] cs[k]) && cs[k] != '(' && cs[k] != ')'
            && cs[k] != ';' && !is_reader_mark(cs[k]),
    decreases cs.len() - j,
{
    if j < cs.len() && !(is_white_space(cs[j]) || cs[j] == '(' || cs[j] == ')' || cs[j] == ';' || is_reader_mark(
        cs[j],
    )) {
        lemma_atom_end(cs, j + 1);
    }
}

fn reader_failure(c: char) -> (e: CompileError)
    ensures
        e.0@ == reader_error(c),
{
    let mut message = String::new();
    push_str(&mut message, "unsupported reader syntax starting with `");
    push_char(&mut message, c);
    push_str(&mut message, "`");
    proof { assert(message@ =~= reader_error(c)); }
    CompileError(message)
}

fn is_reader_char(c: char) -> (r: bool)
    ensures
        r == is_reader_mark(c),
{
    c == '\'' || c == '`' || c == ',' || c == '"'
}

/// Split source text into parentheses and atoms, skipping whitespace and
/// `;` comments.
pub fn tokenize(source: &str) -> (r: Result<Vec<Token>, CompileError>)
    ensures
        match tokens_from(source@, 0) {
            Ok(toks) => r matches Ok(v) && toks_of(v@) == toks,
            Err(m) => r matches Err(e) && e.0@ == m,
        },
{
    let cs = chars_of(source);
    let ghost all = cs@;
    let mut result: Vec<Token> = Vec::new();
    let mut i: usize = 0;
    proof { assert(toks_of(result@) =~= Seq::empty()); }
    while i < cs.len()
        invariant
            cs@ == all,
            all == source@,
            i <= cs.len(),
            tokens_from(all, 0) == match tokens_from(all, i as int) {
                Ok(rest) => Ok::<Seq<Tok>, Seq<char>>(toks_of(result@) + rest),
                Err(m) => Err(m),
            },
        decreases cs.len() - i,
    {
        let c = cs[i];
        if c == ';' {
            let mut j: usize = i + 1;
            proof { lemma_comment_end(all, (i + 1) as int); }
            while j < cs.len() && cs[j] != '\n'
                invariant
                    cs@ == all,
                    i + 1 <= j <= cs.len(),
                    comment_end(all, (i + 1) as int) == comment_end(all, j as int),
                decreases cs.len() - j,
            {
                j = j + 1;
            }
            if j < cs.len() {
                j = j + 1;
            }
            proof {
                assert(comment_end(all, (i + 1) as int) == j);
                assert(toks_of(result@) + Seq::empty() =~= toks_of(result@));
            }
            i = j;
        } else if c == '(' || c == ')' {
            let ghost before = result@;
            if c == '(' {
                result.push(Token::Open);
            } else {
                result.push(Token::Close);
            }
            proof {
                let t = if c == '(' { Tok::Open } else { Tok::Close };
                assert(toks_of(result@) =~= toks_of(before).push(t));
                if let Ok(rest) = tokens_from(all, i + 1) {
                    assert(toks_of(before) + (seq![t] + rest) =~= toks_of(result@) + rest);
                }
            }
            i = i + 1;
        } else if is_reader_char(c) {
            return Err(reader_failure(c));
        } else if white_space(c) {
            i = i + 1;
        } else {
            let mut j: usize = i + 1;
            proof { lemma_atom_end(all, (i + 1) as int); }
            while j < cs.len() && !(white_space(cs[j]) || cs[j] == '(' || cs[j] == ')' || cs[j] == ';' || is_reader_char(
                cs[j],
            ))
                invariant
                    cs@ == all,
                    i + 1 <= j <= cs.len(),
                    atom_end(all, (i + 1) as int) == atom_end(all, j as int),
                decreases cs.len() - j,
            {
                j = j + 1;
            }
            if j < cs.len() && is_reader_char(cs[j]) {
                return Err(reader_failure(cs[j]));
            }
            let atom = string_of(&cs.as_slice()[i..j]);
            proof { assert(cs@.subrange(i as int, j as int) == all.subrange(i as int, j as int)); }
            let ghost before = result@;
            result.push(Token::Atom(atom));
            proof {
                let t = Tok::Atom(all.subrange(i as int, j as int));
                assert(toks_of(result@) =~= toks_of(before).push(t));
                if let Ok(rest) = tokens_from(all, j as int) {
                    assert(toks_of(before) + (seq![t] + rest) =~= toks_of(result@) + rest);
                }
            }
            i = j;
        }
    }
    proof { assert(toks_of(result@) + Seq::empty() =~= toks_of(result@)); }
    Ok(result)
}


/// What an atom reads as: `#t` and `#f` are booleans, what `i64` parses is a
/// number, anything else is a symbol.
pub open spec fn atom_value(a: Seq<char>) -> STerm {
    if a == "#t"@ {
        STerm::Bool(true)
    } else if a == "#f"@ {
        STerm::Bool(false)
    } else {
        match parse_i64(a) {
            Some(n) => STerm::Number(n),
            None => STerm::Symbol(a),
        }
    }
}

/// The S-expression starting at token `i`, and the index just past it.
pub open spec fn parse_at(toks: Seq<Tok>, i: int) -> Result<(STerm, int), Seq<char>>
    decreases toks.len() - i, 0int,
{
    if i < 0 || i >= toks.len() {
        Err("unexpected end of input"@)
    } else {
        match toks[i] {
            Tok::Open => parse_items(toks, i + 1, Seq::empty()),
            Tok::Close => Err("unexpected `)`"@),
            Tok::Atom(a) => Ok((atom_value(a), i + 1)),
        }
    }
}

/// The rest of a list whose items so far are `items`, from token `j`.
pub open spec fn parse_items(toks: Seq<Tok>, j: int, items: Seq<STerm>) -> Result<(STerm, int), Seq<char>>
    decreases toks.len() - j, 1int,
{
    if j < 0 || j >= toks.len() {
        Err("unclosed `(`"@)
    } else {
        match toks[j] {
            Tok::Close => Ok((STerm::List(items), j + 1)),
            _ => match parse_at(toks, j) {
                Err(m) => Err(m),
                Ok((x, k)) => if j < k <= toks.len() {
                    parse_items(toks, k, items.push(x))
                } else {
                    Err("unexpected end of input"@)
                },
            },
        }
    }
}

/// Every form from token `i` on, after `forms`.
pub open spec fn parse_forms(toks: Seq<Tok>, i: int, forms: Seq<STerm>) -> Result<Seq<STerm>, Seq<char>>
    decreases toks.len() - i,
{
    if i < 0 || i >= toks.len() {
        Ok(forms)
    } else {
        match parse_at(toks, i) {
            Err(m) => Err(m),
            Ok((x, k)) => if i < k <= toks.len() {
                parse_forms(toks, k, forms.push(x))
            } else {
                Err("unexpected end of input"@)
            },
        }
    }
}

/// The forms of `source`, or the first error reading it.
pub open spec fn parsed(source: Seq<char>) -> Result<Seq<STerm>, Seq<char>> {
    match tokens_from(source, 0) {
        Err(m) => Err(m),
        Ok(toks) => parse_forms(toks, 0, Seq::empty()),
    }
}

/// A parse always moves past what it read.
proof fn lemma_parse_advances(toks: Seq<Tok>, i: int)
    ensures
        parse_at(toks, i) matches Ok((_, k)) ==> i < k <= toks.len(),
    decreases toks.len() - i, 0int,
{
    if 0 <= i < toks.len() {
        if toks[i] is Open {
            lemma_items_advance(toks, i + 1, Seq::empty());
        }
    }
}

proof fn lemma_items_advance(toks: Seq<Tok>, j: int, items: Seq<STerm>)
    ensures
        parse_items(toks, j, items) matches Ok((_, k)) ==> j < k <= toks.len(),
    decreases toks.len() - j, 1int,
{
    if 0 <= j < toks.len() && !(toks[j] is Close) {
        lemma_parse_advances(toks, j);
        if let Ok((x, k)) = parse_at(toks, j) {
            if j < k <= toks.len() {
                lemma_items_advance(toks, k, items.push(x));
            }
        }
    }
}

/// What an atom reads as.
fn read_atom(atom: &String) -> (r: SExpr)
    ensures
        r@ == atom_value(atom@),
{
    if text_is(atom, "#t") {
        SExpr::Bool(true)
    } else if text_is(atom, "#f") {
        SExpr::Bool(false)
    } else {
        let cs = chars_of(atom.as_str());
        match parse_i64_text(cs.as_slice()) {
            Some(n) => SExpr::Number(n),
            None => SExpr::Symbol(atom.clone()),
        }
    }
}

/// The S-expression starting at token `cursor`, and the index past it.
fn parse_one(tokens: &Vec<Token>, cursor: usize) -> (r: Result<(SExpr, usize), CompileError>)
    ensures
        match parse_at(toks_of(tokens@), cursor as int) {
            Ok((x, k)) => r matches Ok((e, c)) && e@ == x && c == k,
            Err(m) => r matches Err(err) && err.0@ == m,
        },
    decreases tokens.len() - cursor,
{
    let ghost toks = toks_of(tokens@);
    if cursor >= tokens.len() {
        return Err(crate::error("unexpected end of input"));
    }
    match &tokens[cursor] {
        Token::Open => {
            let mut items: Vec<SExpr> = Vec::new();
            let mut j: usize = cursor + 1;
            proof { assert(sterms_of(items@) =~= Seq::empty()); }
            while j < tokens.len()
                invariant
                    toks == toks_of(tokens@),
                    cursor < j <= tokens.len(),
                    parse_at(toks, cursor as int) == parse_items(toks, j as int, sterms_of(items@)),
                decreases tokens.len() - j,
            {
                if matches!(&tokens[j], Token::Close) {
                    proof { assert(toks[j as int] is Close); }
                    return Ok((SExpr::List(items), j + 1));
                }
                proof { lemma_parse_advances(toks, j as int); }
                match parse_one(tokens, j) {
                    Ok((x, k)) => {
                        proof { assert(items@.push(x).drop_last() =~= items@); }
                        items.push(x);
                        j = k;
                    },
                    Err(e) => {
                        return Err(e);
                    },
                }
            }
            Err(crate::error("unclosed `(`"))
        },
        Token::Close => Err(crate::error("unexpected `)`")),
        Token::Atom(atom) => Ok((read_atom(atom), cursor + 1)),
    }
}

/// Read every top-level form of `source`.
pub fn parse(source: &str) -> (r: Result<Vec<SExpr>, CompileError>)
    ensures
        match parsed(source@) {
            Ok(forms) => r matches Ok(v) && sterms_of(v@) == forms,
            Err(m) => r matches Err(e) && e.0@ == m,
        },
{
    let tokens = tokenize(source)?;
    let ghost toks = toks_of(tokens@);
    let mut cursor: usize = 0;
    let mut forms: Vec<SExpr> = Vec::new();
    proof { assert(sterms_of(forms@) =~= Seq::empty()); }
    while cursor < tokens.len()
        invariant
            toks == toks_of(tokens@),
            cursor <= tokens.len(),
            parsed(source@) == parse_forms(toks, cursor as int, sterms_of(forms@)),
        decreases tokens.len() - cursor,
    {
        proof { lemma_parse_advances(toks, cursor as int); }
        let (form, next) = parse_one(&tokens, cursor)?;
        proof { assert(forms@.push(form).drop_last() =~= forms@); }
        forms.push(form);
        cursor = next;
    }
    Ok(forms)
}

}
