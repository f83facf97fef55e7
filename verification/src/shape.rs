//! What `#[derive(Casserole)]` decides about a type before it writes any code: whether
//! its `#[casserole(..)]` attributes are sound, which fields go to the store, how the
//! folded type is named, and how each field is bound and rebuilt.
//!
//! The derive reads the type through `syn`; here the type and its attributes are plain
//! values, and the decisions are verified functions of them. The derive refuses a type
//! by stopping with a message; here each decision has a function that names the
//! refusal, if any (`plan_outcome`, `field_attrs_fault`, `type_attrs_fault`), and the
//! decision itself asks, in its `requires`, for an input that is not refused.
use vstd::prelude::*;

verus! {

/// The delimiter of a token group.
#[derive(Clone, Copy, PartialEq, Eq, Structural)]
pub enum Delim {
    Parenthesis,
    Brace,
    Bracket,
    Invisible,
}

/// One token of an attribute's argument list.
pub enum AttrToken {
    Ident(String),
    /// A literal: its text as written (with its quotes), and the tokens inside the
    /// round-bracket group that the lexer gave for that text with its first and last
    /// characters replaced by round brackets, where it gave exactly one such group.
    Literal(String, Option<Vec<AttrToken>>),
    Punct(char),
    Group(Delim, Vec<AttrToken>),
}

/// A token stream of `proc_macro2`, as the derive receives an attribute's tokens.
#[verifier::external_type_specification]
#[verifier::external_body]
pub struct ExTokenStream(proc_macro2::TokenStream);

/// The tokens of a `proc_macro2` token stream, one for one: names, literals (as
/// written, not yet lexed inside), punctuation marks, and groups with their delimiter
/// and tokens. Nothing is claimed of the result.
#[verifier::external_body]
fn tokens_of_stream(stream: proc_macro2::TokenStream) -> (tokens: Vec<AttrToken>) {
    let mut tokens = Vec::new();
    for tree in stream {
        tokens.push(match tree {
            proc_macro2::TokenTree::Ident(ident) => AttrToken::Ident(ident.to_string()),
            proc_macro2::TokenTree::Punct(punct) => AttrToken::Punct(punct.as_char()),
            proc_macro2::TokenTree::Literal(literal) => AttrToken::Literal(literal.to_string(), None),
            proc_macro2::TokenTree::Group(group) => AttrToken::Group(match group.delimiter() {
                proc_macro2::Delimiter::Parenthesis => Delim::Parenthesis,
                proc_macro2::Delimiter::Brace => Delim::Brace,
                proc_macro2::Delimiter::Bracket => Delim::Bracket,
                proc_macro2::Delimiter::None => Delim::Invisible,
            }, tokens_of_stream(group.stream())),
        });
    }
    tokens
}

/// Lexes `text` with `proc_macro2` (`str::parse` into a `TokenStream`, then
/// `syn::parse2` into one `TokenTree`) and gives the stream inside that tree where it is
/// a group. Nothing is claimed of the result: `proc_macro2` lexes with the compiler
/// inside a macro expansion and with its own lexer elsewhere, and the two differ on some
/// texts.
#[verifier::external_body]
fn lex_group(text: &str) -> (inner: Option<proc_macro2::TokenStream>) {
    let stream: proc_macro2::TokenStream = text.parse().ok()?;
    match syn::parse2::<proc_macro2::TokenTree>(stream).ok()? {
        proc_macro2::TokenTree::Group(group) => Some(group.stream()),
        _ => None,
    }
}

/// The text that the lexer reads for the literal `text`: its first and last characters
/// replaced by round brackets.
pub open spec fn bracketed_literal(text: Seq<char>) -> Seq<char> {
    seq!['('] + text.subrange(1, text.len() - 1) + seq![')']
}

/// Lexes the text inside the literal `text`, as `bracketed_literal` gives it; none for a
/// text too short to hold quotes.
fn literal_inner_of(text: &str) -> (inner: Option<Vec<AttrToken>>)
    ensures
        text@.len() < 2 ==> inner is None,
{
    let n = text.unicode_len();
    if n < 2 {
        return None;
    }
    proof {
        reveal_strlit("(");
        reveal_strlit(")");
    }
    let mut bracketed = String::from_str("(");
    bracketed.append(text.substring_char(1, n - 1));
    bracketed.append(")");
    assert(bracketed@ == bracketed_literal(text@));
    match lex_group(bracketed.as_str()) {
        Some(stream) => Some(tokens_of_stream(stream)),
        None => None,
    }
}

/// `lexed` is the token `raw`: the same name, punctuation mark or literal text, or a
/// group with the same delimiter whose tokens are those of `raw`'s group.
pub open spec fn same_token(lexed: AttrToken, raw: AttrToken) -> bool
    decreases raw,
{
    match (lexed, raw) {
        (AttrToken::Ident(a), AttrToken::Ident(b)) => a@ == b@,
        (AttrToken::Punct(a), AttrToken::Punct(b)) => a == b,
        (AttrToken::Literal(a, _), AttrToken::Literal(b, _)) => a@ == b@,
        (AttrToken::Group(d, xs), AttrToken::Group(e, ys)) => d == e && same_tokens(xs@, ys@),
        _ => false,
    }
}

/// `lexed` holds the tokens of `raw` in order, each as `same_token` says, down through
/// every group.
pub open spec fn same_tokens(lexed: Seq<AttrToken>, raw: Seq<AttrToken>) -> bool
    decreases raw,
{
    &&& lexed.len() == raw.len()
    &&& forall|i: int| 0 <= i < raw.len() ==> same_token(#[trigger] lexed[i], raw[i])
}

/// `tokens` with each literal, within groups and within literals down to `depth` levels,
/// given the tokens that the lexer gives for the text inside it.
fn lex_literals(tokens: &Vec<AttrToken>, depth: usize) -> (lexed: Vec<AttrToken>)
    ensures
        same_tokens(lexed@, tokens@),
    decreases depth, tokens@,
{
    let mut lexed: Vec<AttrToken> = Vec::new();
    let mut i: usize = 0;
    while i < tokens.len()
        invariant
            i <= tokens@.len(),
            lexed@.len() == i,
            forall|j: int| 0 <= j < i ==> same_token(#[trigger] lexed@[j], tokens@[j]),
        decreases tokens@.len() - i,
    {
        proof {
            assert(decreases_to!(tokens@ => tokens@[i as int]));
        }
        let token = match &tokens[i] {
            AttrToken::Ident(name) => AttrToken::Ident(name.clone()),
            AttrToken::Punct(c) => AttrToken::Punct(*c),
            AttrToken::Literal(text, _) => {
                let inner = if depth == 0 {
                    None
                } else {
                    match literal_inner_of(text.as_str()) {
                        Some(raw) => Some(lex_literals(&raw, depth - 1)),
                        None => None,
                    }
                };
                AttrToken::Literal(text.clone(), inner)
            },
            AttrToken::Group(d, inner) => AttrToken::Group(*d, lex_literals(inner, depth)),
        };
        lexed.push(token);
        i = i + 1;
    }
    lexed
}

/// An attribute: the last segment of its path, where it has one, its tokens after the
/// path (for `#[casserole(store)]`, the one group `(store)`), and those tokens as
/// written, for messages.
pub struct AttrInput {
    pub last_segment: Option<String>,
    pub tokens: Vec<AttrToken>,
    pub text: String,
}

/// The attribute whose path ends in `last_segment`, written `text`, with the tokens
/// `raw`, each literal given what the lexer makes of the text inside it.
pub fn attr_input(last_segment: Option<String>, raw: Vec<AttrToken>, text: String) -> (a: AttrInput)
    ensures
        a.last_segment == last_segment,
        a.text == text,
        same_tokens(a.tokens@, raw@),
{
    AttrInput { last_segment, tokens: lex_literals(&raw, usize::MAX), text }
}

/// Why an attribute of the derive is refused; each holds the attribute's tokens as
/// written.
pub enum AttrError {
    /// A token that is neither a literal, a punctuation mark, nor a round-bracket group.
    ExpectedParens(String),
    /// A round-bracket group that does not begin with a term.
    ExpectedValue(String),
    /// A term that the attribute does not know, and the attribute.
    InvalidTerm(String, String),
}

/// `AttrError` with its texts as sequences of characters.
pub enum AttrFault {
    ExpectedParens(Seq<char>),
    ExpectedValue(Seq<char>),
    InvalidTerm(Seq<char>, Seq<char>),
}

impl View for AttrError {
    type V = AttrFault;

    open spec fn view(&self) -> AttrFault {
        match self {
            AttrError::ExpectedParens(a) => AttrFault::ExpectedParens(a@),
            AttrError::ExpectedValue(a) => AttrFault::ExpectedValue(a@),
            AttrError::InvalidTerm(t, a) => AttrFault::InvalidTerm(t@, a@),
        }
    }
}

/// `r` is the outcome `o`: the same success value, or an error whose view is `o`'s.
pub open spec fn same_outcome<T>(r: Result<T, AttrError>, o: Result<T, AttrFault>) -> bool {
    match (r, o) {
        (Ok(a), Ok(b)) => a == b,
        (Err(e), Err(f)) => e@ == f,
        _ => false,
    }
}

/// The term that opens `tokens`, and the tokens after it: the first token's name, or,
/// where the first token is a literal that holds a group, what opens that group. None
/// where `tokens` is empty or opens with another token.
pub open spec fn attr_split(tokens: Seq<AttrToken>) -> Option<(Seq<char>, Seq<AttrToken>)>
    decreases tokens,
{
    if tokens.len() == 0 {
        None
    } else {
        match tokens[0] {
            AttrToken::Ident(name) => Some((name@, tokens.drop_first())),
            AttrToken::Literal(_, Some(inner)) => {
                proof {
                    assert(decreases_to!(tokens => tokens[0]));
                }
                attr_split(inner@)
            },
            _ => None,
        }
    }
}

/// The term that opens `tokens`, as `attr_split` says.
pub open spec fn attr_term(tokens: Seq<AttrToken>) -> Option<Seq<char>> {
    match attr_split(tokens) {
        Some(split) => Some(split.0),
        None => None,
    }
}

/// Whether `tokens` open with a term, and which: as `attr_term` says.
pub fn first_term(tokens: &Vec<AttrToken>) -> (term: Option<String>)
    ensures
        term.deep_view() == attr_term(tokens@),
    decreases tokens@,
{
    if tokens.len() == 0 {
        return None;
    }
    match &tokens[0] {
        AttrToken::Ident(name) => Some(name.clone()),
        AttrToken::Literal(_, Some(inner)) => {
            proof {
                assert(decreases_to!(tokens@ => tokens@[0]));
            }
            first_term(inner)
        },
        _ => None,
    }
}

/// The term that opens `tokens`, and the tokens that follow it: where the term stands
/// in a literal, those that follow it inside the literal's group.
pub fn attr_term_of(tokens: Vec<AttrToken>) -> (split: (String, Vec<AttrToken>))
    requires
        attr_split(tokens@) is Some,
    ensures
        attr_split(tokens@) == Some((split.0@, split.1@)),
    decreases tokens@,
{
    let mut tokens = tokens;
    let ghost before = tokens@;
    proof {
        assert(decreases_to!(before => before[0]));
    }
    let first = tokens.remove(0);
    assert(tokens@ =~= before.drop_first());
    match first {
        AttrToken::Ident(name) => (name, tokens),
        AttrToken::Literal(_, Some(inner)) => attr_term_of(inner),
        _ => vstd::pervasive::unreached(),
    }
}

/// `a` is an attribute of this derive: the last segment of its path is `casserole`.
pub open spec fn is_casserole_attr(a: AttrInput) -> bool {
    a.last_segment matches Some(name) && name@ == "casserole"@
}

/// Whether the attribute `a` is one of this derive's.
fn concerns_casserole(a: &AttrInput) -> (r: bool)
    ensures
        r == is_casserole_attr(*a),
{
    match &a.last_segment {
        Some(name) => {
            let ours = String::from_str("casserole");
            *name == ours
        },
        None => false,
    }
}

/// What the tokens of a `#[casserole(..)]` attribute on a type, written `text`, come to.
/// Literals and punctuation are passed over; a round-bracket group is refused, with its
/// term where it has one, since no term is known there; any other token is refused.
pub open spec fn type_tokens_outcome(tokens: Seq<AttrToken>, text: Seq<char>) -> Result<(), AttrFault>
    decreases tokens.len(),
{
    if tokens.len() == 0 {
        Ok(())
    } else {
        match tokens[0] {
            AttrToken::Literal(..) => type_tokens_outcome(tokens.drop_first(), text),
            AttrToken::Punct(..) => type_tokens_outcome(tokens.drop_first(), text),
            AttrToken::Group(Delim::Parenthesis, inner) => match attr_term(inner@) {
                Some(t) => Err(AttrFault::InvalidTerm(t, text)),
                None => Err(AttrFault::ExpectedValue(text)),
            },
            _ => Err(AttrFault::ExpectedParens(text)),
        }
    }
}

/// What the attributes of a type come to: those of other derives are passed over, and
/// the first refusal among the others is the outcome.
pub open spec fn type_attrs_outcome(attrs: Seq<AttrInput>) -> Result<(), AttrFault>
    decreases attrs.len(),
{
    if attrs.len() == 0 {
        Ok(())
    } else if !is_casserole_attr(attrs[0]) {
        type_attrs_outcome(attrs.drop_first())
    } else {
        match type_tokens_outcome(attrs[0].tokens@, attrs[0].text@) {
            Ok(()) => type_attrs_outcome(attrs.drop_first()),
            Err(f) => Err(f),
        }
    }
}

/// What the tokens of a `#[casserole(..)]` attribute on a field, written `text`, come
/// to, where `store` says whether an earlier one asked for the store. The one known term
/// is `store`.
pub open spec fn field_tokens_outcome(tokens: Seq<AttrToken>, text: Seq<char>, store: bool) -> Result<
    bool,
    AttrFault,
>
    decreases tokens.len(),
{
    if tokens.len() == 0 {
        Ok(store)
    } else {
        match tokens[0] {
            AttrToken::Literal(..) => field_tokens_outcome(tokens.drop_first(), text, store),
            AttrToken::Punct(..) => field_tokens_outcome(tokens.drop_first(), text, store),
            AttrToken::Group(Delim::Parenthesis, inner) => match attr_term(inner@) {
                Some(t) => if t == "store"@ {
                    field_tokens_outcome(tokens.drop_first(), text, true)
                } else {
                    Err(AttrFault::InvalidTerm(t, text))
                },
                None => Err(AttrFault::ExpectedValue(text)),
            },
            _ => Err(AttrFault::ExpectedParens(text)),
        }
    }
}

/// What the attributes of a field come to: whether the field goes to the store, or the
/// first refusal.
pub open spec fn field_attrs_outcome(attrs: Seq<AttrInput>, store: bool) -> Result<bool, AttrFault>
    decreases attrs.len(),
{
    if attrs.len() == 0 {
        Ok(store)
    } else if !is_casserole_attr(attrs[0]) {
        field_attrs_outcome(attrs.drop_first(), store)
    } else {
        match field_tokens_outcome(attrs[0].tokens@, attrs[0].text@, store) {
            Ok(s) => field_attrs_outcome(attrs.drop_first(), s),
            Err(f) => Err(f),
        }
    }
}

/// Checks the tokens of a `#[casserole(..)]` attribute on a type.
fn check_type_tokens(tokens: &Vec<AttrToken>, text: &String) -> (r: Result<(), AttrError>)
    ensures
        same_outcome(r, type_tokens_outcome(tokens@, text@)),
{
    let mut i: usize = 0;
    assert(tokens@.skip(0) =~= tokens@);
    while i < tokens.len()
        invariant
            i <= tokens@.len(),
            type_tokens_outcome(tokens@, text@) == type_tokens_outcome(tokens@.skip(i as int), text@),
        decreases tokens@.len() - i,
    {
        assert(tokens@.skip(i as int).drop_first() =~= tokens@.skip(i + 1));
        assert(tokens@.skip(i as int)[0] == tokens@[i as int]);
        match &tokens[i] {
            AttrToken::Literal(..) => {},
            AttrToken::Punct(..) => {},
            AttrToken::Group(Delim::Parenthesis, inner) => {
                return match first_term(inner) {
                    Some(t) => Err(AttrError::InvalidTerm(t, text.clone())),
                    None => Err(AttrError::ExpectedValue(text.clone())),
                };
            },
            _ => {
                return Err(AttrError::ExpectedParens(text.clone()));
            },
        }
        i = i + 1;
    }
    assert(tokens@.skip(i as int).len() == 0);
    Ok(())
}

/// Checks the attributes of a type.
fn check_type_attrs(attrs: &Vec<AttrInput>) -> (r: Result<(), AttrError>)
    ensures
        same_outcome(r, type_attrs_outcome(attrs@)),
{
    let mut i: usize = 0;
    assert(attrs@.skip(0) =~= attrs@);
    while i < attrs.len()
        invariant
            i <= attrs@.len(),
            type_attrs_outcome(attrs@) == type_attrs_outcome(attrs@.skip(i as int)),
        decreases attrs@.len() - i,
    {
        assert(attrs@.skip(i as int).drop_first() =~= attrs@.skip(i + 1));
        assert(attrs@.skip(i as int)[0] == attrs@[i as int]);
        if concerns_casserole(&attrs[i]) {
            match check_type_tokens(&attrs[i].tokens, &attrs[i].text) {
                Ok(()) => {},
                Err(e) => {
                    return Err(e);
                },
            }
        }
        i = i + 1;
    }
    assert(attrs@.skip(i as int).len() == 0);
    Ok(())
}

/// The refusal among the attributes of a type, if any: `None` where
/// `type_attrs_outcome` is `Ok`, else the first refusal.
pub fn type_attrs_fault(attrs: &Vec<AttrInput>) -> (fault: Option<AttrError>)
    ensures
        match type_attrs_outcome(attrs@) {
            Ok(()) => fault is None,
            Err(f) => fault matches Some(e) && e@ == f,
        },
{
    match check_type_attrs(attrs) {
        Ok(()) => None,
        Err(e) => Some(e),
    }
}

/// Reads the tokens of a `#[casserole(..)]` attribute on a field.
fn read_field_tokens(tokens: &Vec<AttrToken>, text: &String, store_before: bool) -> (r: Result<
    bool,
    AttrError,
>)
    ensures
        same_outcome(r, field_tokens_outcome(tokens@, text@, store_before)),
{
    let mut store = store_before;
    let mut i: usize = 0;
    assert(tokens@.skip(0) =~= tokens@);
    while i < tokens.len()
        invariant
            i <= tokens@.len(),
            field_tokens_outcome(tokens@, text@, store_before) == field_tokens_outcome(
                tokens@.skip(i as int),
                text@,
                store,
            ),
        decreases tokens@.len() - i,
    {
        assert(tokens@.skip(i as int).drop_first() =~= tokens@.skip(i + 1));
        assert(tokens@.skip(i as int)[0] == tokens@[i as int]);
        match &tokens[i] {
            AttrToken::Literal(..) => {},
            AttrToken::Punct(..) => {},
            AttrToken::Group(Delim::Parenthesis, inner) => {
                match first_term(inner) {
                    Some(t) => {
                        let known = String::from_str("store");
                        if t == known {
                            store = true;
                        } else {
                            return Err(AttrError::InvalidTerm(t, text.clone()));
                        }
                    },
                    None => {
                        return Err(AttrError::ExpectedValue(text.clone()));
                    },
                }
            },
            _ => {
                return Err(AttrError::ExpectedParens(text.clone()));
            },
        }
        i = i + 1;
    }
    assert(tokens@.skip(i as int).len() == 0);
    Ok(store)
}

/// Reads the attributes of a field: whether it goes to the store, or the first refusal.
fn read_field_attrs_outcome(attrs: &Vec<AttrInput>) -> (r: Result<bool, AttrError>)
    ensures
        same_outcome(r, field_attrs_outcome(attrs@, false)),
{
    let mut store = false;
    let mut i: usize = 0;
    assert(attrs@.skip(0) =~= attrs@);
    while i < attrs.len()
        invariant
            i <= attrs@.len(),
            field_attrs_outcome(attrs@, false) == field_attrs_outcome(attrs@.skip(i as int), store),
        decreases attrs@.len() - i,
    {
        assert(attrs@.skip(i as int).drop_first() =~= attrs@.skip(i + 1));
        assert(attrs@.skip(i as int)[0] == attrs@[i as int]);
        if concerns_casserole(&attrs[i]) {
            match read_field_tokens(&attrs[i].tokens, &attrs[i].text, store) {
                Ok(s) => {
                    store = s;
                },
                Err(e) => {
                    return Err(e);
                },
            }
        }
        i = i + 1;
    }
    assert(attrs@.skip(i as int).len() == 0);
    Ok(store)
}

/// The refusal among the attributes of a field, if any: `None` where
/// `field_attrs_outcome` is `Ok`, else the first refusal.
pub fn field_attrs_fault(attrs: &Vec<AttrInput>) -> (fault: Option<AttrError>)
    ensures
        match field_attrs_outcome(attrs@, false) {
            Ok(_) => fault is None,
            Err(f) => fault matches Some(e) && e@ == f,
        },
{
    match read_field_attrs_outcome(attrs) {
        Ok(_) => None,
        Err(e) => Some(e),
    }
}

/// Whether the field with the attributes `attrs` goes to the store: whether one of its
/// `#[casserole(..)]` attributes holds the term `store`. The attributes must be ones
/// that the derive accepts (`field_attrs_fault` gives `None`).
pub fn read_field_attrs(attrs: &Vec<AttrInput>) -> (store: bool)
    requires
        field_attrs_outcome(attrs@, false) is Ok,
    ensures
        field_attrs_outcome(attrs@, false) == Ok::<bool, AttrFault>(store),
{
    match read_field_attrs_outcome(attrs) {
        Ok(store) => store,
        Err(_) => vstd::pervasive::unreached(),
    }
}

/// How a value is rebuilt from its fields: `{ name: .. }`, `( .. )`, or by its name alone.
#[derive(Clone, Copy, PartialEq, Eq, Structural)]
pub enum FieldsKind {
    Named,
    Unnamed,
    Unit,
}

/// The way a list of `len` fields, named or not, is rebuilt: a list without fields by
/// its name alone.
pub open spec fn fields_kind(named: bool, len: nat) -> FieldsKind {
    if len == 0 {
        FieldsKind::Unit
    } else if named {
        FieldsKind::Named
    } else {
        FieldsKind::Unnamed
    }
}

/// The way a list of `len` fields is rebuilt, as `fields_kind` says.
pub fn kind_of(named: bool, len: usize) -> (kind: FieldsKind)
    ensures
        kind == fields_kind(named, len as nat),
{
    if len == 0 {
        FieldsKind::Unit
    } else if named {
        FieldsKind::Named
    } else {
        FieldsKind::Unnamed
    }
}

/// The character of the decimal digit `d`.
pub open spec fn digit_char(d: nat) -> char {
    (d + 48) as char
}

/// The decimal digits of `n`, most significant first, without leading zeros.
pub open spec fn decimal_text(n: nat) -> Seq<char>
    decreases n,
{
    if n < 10 {
        seq![digit_char(n)]
    } else {
        decimal_text(n / 10).push(digit_char(n % 10))
    }
}

/// A decimal text has a digit, and at least two from ten on.
proof fn lemma_decimal_text_len(n: nat)
    ensures
        decimal_text(n).len() >= 1,
        n >= 10 ==> decimal_text(n).len() >= 2,
    decreases n,
{
    if n >= 10 {
        lemma_decimal_text_len(n / 10);
    }
}

/// Distinct numbers have distinct decimal texts.
proof fn lemma_decimal_text_injective(a: nat, b: nat)
    requires
        decimal_text(a) == decimal_text(b),
    ensures
        a == b,
    decreases a,
{
    lemma_decimal_text_len(a);
    lemma_decimal_text_len(b);
    if a >= 10 && b >= 10 {
        assert(decimal_text(a).last() == digit_char(a % 10));
        assert(decimal_text(b).last() == digit_char(b % 10));
        assert(a % 10 == b % 10);
        assert(decimal_text(a / 10) =~= decimal_text(a).drop_last());
        assert(decimal_text(b / 10) =~= decimal_text(b).drop_last());
        lemma_decimal_text_injective(a / 10, b / 10);
        assert(a == 10 * (a / 10) + a % 10) by (nonlinear_arith);
        assert(b == 10 * (b / 10) + b % 10) by (nonlinear_arith);
    } else if a < 10 && b < 10 {
        assert(decimal_text(a)[0] == digit_char(a));
        assert(decimal_text(b)[0] == digit_char(b));
    } else {
        assert(decimal_text(a).len() == decimal_text(b).len());
    }
}

/// Fields bound by position never share a binding: `f` followed by the decimal text of
/// the position differs for distinct positions.
pub proof fn law_positional_bindings_distinct(i: nat, j: nat)
    requires
        i != j,
    ensures
        seq!['f'] + decimal_text(i) != seq!['f'] + decimal_text(j),
{
    if seq!['f'] + decimal_text(i) == seq!['f'] + decimal_text(j) {
        assert(decimal_text(i) =~= (seq!['f'] + decimal_text(i)).drop_first());
        assert(decimal_text(j) =~= (seq!['f'] + decimal_text(j)).drop_first());
        lemma_decimal_text_injective(i, j);
    }
}

/// The decimal digit `d` as a string.
fn digit_string(d: usize) -> (s: String)
    requires
        d < 10,
    ensures
        s@ == seq![digit_char(d as nat)],
{
    proof {
        reveal_strlit("0");
        reveal_strlit("1");
        reveal_strlit("2");
        reveal_strlit("3");
        reveal_strlit("4");
        reveal_strlit("5");
        reveal_strlit("6");
        reveal_strlit("7");
        reveal_strlit("8");
        reveal_strlit("9");
    }
    let text = if d == 0 {
        "0"
    } else if d == 1 {
        "1"
    } else if d == 2 {
        "2"
    } else if d == 3 {
        "3"
    } else if d == 4 {
        "4"
    } else if d == 5 {
        "5"
    } else if d == 6 {
        "6"
    } else if d == 7 {
        "7"
    } else if d == 8 {
        "8"
    } else {
        "9"
    };
    String::from_str(text)
}

/// The decimal digits of `n`.
pub fn decimal_string(n: usize) -> (s: String)
    ensures
        s@ == decimal_text(n as nat),
    decreases n,
{
    if n < 10 {
        digit_string(n)
    } else {
        let mut s = decimal_string(n / 10);
        let last = digit_string(n % 10);
        s.append(last.as_str());
        s
    }
}

/// A field as the derive sees it: its name, where it has one, and its attributes.
pub struct FieldInput {
    pub ident: Option<String>,
    pub attrs: Vec<AttrInput>,
}

/// A list of fields: named (`{ .. }`), unnamed (`( .. )`), or none (a unit struct or
/// variant).
pub enum FieldsInput {
    Named(Vec<FieldInput>),
    Unnamed(Vec<FieldInput>),
    Unit,
}

/// The fields of a list, in order.
pub open spec fn fields_of(fields: FieldsInput) -> Seq<FieldInput> {
    match fields {
        FieldsInput::Named(list) => list@,
        FieldsInput::Unnamed(list) => list@,
        FieldsInput::Unit => Seq::empty(),
    }
}

/// A variant of an enum: its name and its fields.
pub struct VariantInput {
    pub ident: String,
    pub fields: FieldsInput,
}

/// The body of a type: a struct's fields, an enum's variants, or a union.
pub enum DataInput {
    Struct(FieldsInput),
    Enum(Vec<VariantInput>),
    Union,
}

/// A generic parameter of a type, by name: a lifetime, a type or a constant.
pub enum GenericInput {
    Lifetime(String),
    Type(String),
    Const(String),
}

/// A type given to the derive: its name, its generic parameters, its attributes and its
/// body.
pub struct TypeInput {
    pub ident: String,
    pub generics: Vec<GenericInput>,
    pub attrs: Vec<AttrInput>,
    pub data: DataInput,
}

/// The names of the type parameters among `gs`, in order: those that the generated code
/// bounds (each must fold in the store, and its target be readable back).
pub open spec fn type_params(gs: Seq<GenericInput>) -> Seq<Seq<char>>
    decreases gs.len(),
{
    if gs.len() == 0 {
        Seq::empty()
    } else {
        type_params(gs.drop_last()) + match gs.last() {
            GenericInput::Type(name) => seq![name@],
            _ => Seq::<Seq<char>>::empty(),
        }
    }
}

/// The names of the type parameters among `gs`, in order.
fn type_params_of(gs: &Vec<GenericInput>) -> (names: Vec<String>)
    ensures
        names@.len() == type_params(gs@).len(),
        forall|i: int| 0 <= i < names@.len() ==> #[trigger] names@[i]@ == type_params(gs@)[i],
{
    let mut names: Vec<String> = Vec::new();
    let mut k: usize = 0;
    while k < gs.len()
        invariant
            k <= gs@.len(),
            names@.len() == type_params(gs@.take(k as int)).len(),
            forall|i: int|
                0 <= i < names@.len() ==> #[trigger] names@[i]@ == type_params(gs@.take(k as int))[i],
        decreases gs@.len() - k,
    {
        let ghost before = names@;
        assert(gs@.take(k + 1).drop_last() =~= gs@.take(k as int));
        assert(gs@.take(k + 1).last() == gs@[k as int]);
        match &gs[k] {
            GenericInput::Type(name) => {
                names.push(name.clone());
            },
            _ => {},
        }
        k = k + 1;
    }
    assert(gs@.take(gs@.len() as int) =~= gs@);
    names
}

/// Why the derive refuses a type.
pub enum DeriveError {
    /// An attribute of the type or of one of its fields is refused.
    Attr(AttrError),
    /// The type is a union, which the derive does not handle.
    Union,
}

/// `DeriveError` with its attribute error as an `AttrFault`.
pub enum DeriveFault {
    Attr(AttrFault),
    Union,
}

impl View for DeriveError {
    type V = DeriveFault;

    open spec fn view(&self) -> DeriveFault {
        match self {
            DeriveError::Attr(e) => DeriveFault::Attr(e@),
            DeriveError::Union => DeriveFault::Union,
        }
    }
}

/// What the attributes of field `f` come to: whether it goes to the store.
pub open spec fn field_store(f: FieldInput) -> Result<bool, AttrFault> {
    field_attrs_outcome(f.attrs@, false)
}

/// Every field of `list` has attributes that the derive accepts.
pub open spec fn all_fields_ok(list: Seq<FieldInput>) -> bool {
    forall|i: int| 0 <= i < list.len() ==> (#[trigger] field_store(list[i])) is Ok
}

/// Field `i` of `list` is the first whose attributes are refused, with `e`.
pub open spec fn first_field_fault(list: Seq<FieldInput>, i: int, e: AttrFault) -> bool {
    &&& 0 <= i < list.len()
    &&& forall|j: int| 0 <= j < i ==> (#[trigger] field_store(list[j])) is Ok
    &&& field_store(list[i]) == Err::<bool, AttrFault>(e)
}

/// The first refusal among the fields of `list` is `e`.
pub open spec fn fields_fault(list: Seq<FieldInput>, e: AttrFault) -> bool {
    exists|i: int| first_field_fault(list, i, e)
}

/// The name by which the derive binds field `i` of a list, `f`: its own name in a named
/// list, else `f` followed by its position in decimal.
pub open spec fn binding_name(named: bool, f: FieldInput, i: nat) -> Seq<char> {
    if named && f.ident is Some {
        f.ident->0@
    } else {
        seq!['f'] + decimal_text(i)
    }
}

/// What the derive does with one field.
pub struct FieldPlan {
    /// The name that the field is bound to when a variant is matched, and by which it is
    /// written when it is named.
    pub binding: String,
    /// Its position in its list.
    pub position: usize,
    /// Whether its folded value goes to the store, with only its key kept.
    pub stored: bool,
}

/// `p` is the plan for field `i` of a list, `f`.
pub open spec fn field_plan_matches(p: FieldPlan, f: FieldInput, i: int, named: bool) -> bool {
    &&& p.position == i
    &&& field_store(f) matches Ok(stored) && p.stored == stored
    &&& p.binding@ == binding_name(named, f, i as nat)
}

/// `plans` are the plans for the fields of `list`, in order.
pub open spec fn field_plans_match(plans: Seq<FieldPlan>, list: Seq<FieldInput>, named: bool) -> bool {
    &&& plans.len() == list.len()
    &&& forall|i: int| 0 <= i < list.len() ==> field_plan_matches(#[trigger] plans[i], list[i], i, named)
}

/// The binding of field `i` in an unnamed list: `f` and the position.
fn positional_binding(i: usize) -> (s: String)
    ensures
        s@ == seq!['f'] + decimal_text(i as nat),
{
    proof {
        reveal_strlit("f");
    }
    let mut s = String::from_str("f");
    let digits = decimal_string(i);
    s.append(digits.as_str());
    s
}

/// The plans for the fields of `list`, or the first refusal among their attributes.
fn plan_field_list(list: &Vec<FieldInput>, named: bool) -> (r: Result<Vec<FieldPlan>, AttrError>)
    ensures
        r is Ok <==> all_fields_ok(list@),
        r matches Ok(plans) ==> field_plans_match(plans@, list@, named),
        r matches Err(e) ==> fields_fault(list@, e@),
{
    let mut plans: Vec<FieldPlan> = Vec::new();
    let mut i: usize = 0;
    while i < list.len()
        invariant
            i <= list@.len(),
            plans@.len() == i,
            forall|j: int| 0 <= j < i ==> (#[trigger] field_store(list@[j])) is Ok,
            forall|j: int| 0 <= j < i ==> field_plan_matches(#[trigger] plans@[j], list@[j], j, named),
        decreases list@.len() - i,
    {
        let field = &list[i];
        match read_field_attrs_outcome(&field.attrs) {
            Err(e) => {
                assert(first_field_fault(list@, i as int, e@));
                return Err(e);
            },
            Ok(stored) => {
                let binding = match &field.ident {
                    Some(name) => if named {
                        name.clone()
                    } else {
                        positional_binding(i)
                    },
                    None => positional_binding(i),
                };
                plans.push(FieldPlan { binding, position: i, stored });
            },
        }
        i = i + 1;
    }
    Ok(plans)
}

/// What the derive does with one struct body or variant.
pub struct VariantPlan {
    /// The variant's name; none for a struct.
    pub ident: Option<String>,
    /// Whether its fields are named.
    pub named: bool,
    /// How it is rebuilt.
    pub kind: FieldsKind,
    /// Its fields, in order.
    pub fields: Vec<FieldPlan>,
}

/// `p` is the plan for the fields `fields` of a struct (`ident` none) or of the variant
/// named `ident`.
pub open spec fn variant_plan_matches(p: VariantPlan, ident: Option<Seq<char>>, fields: FieldsInput) -> bool {
    &&& p.ident.deep_view() == ident
    &&& p.named == (fields is Named)
    &&& p.kind == fields_kind(fields is Named, fields_of(fields).len())
    &&& field_plans_match(p.fields@, fields_of(fields), fields is Named)
}

/// In the plan for an unnamed list of fields, no two fields share a binding, so the
/// patterns that the derive writes for a variant bind each field once.
pub proof fn law_unnamed_bindings_distinct(
    p: VariantPlan,
    ident: Option<Seq<char>>,
    fields: FieldsInput,
    i: int,
    j: int,
)
    requires
        variant_plan_matches(p, ident, fields),
        !(fields is Named),
        0 <= i < j < p.fields@.len(),
    ensures
        p.fields@[i].binding@ != p.fields@[j].binding@,
{
    assert(field_plan_matches(p.fields@[i], fields_of(fields)[i], i, false));
    assert(field_plan_matches(p.fields@[j], fields_of(fields)[j], j, false));
    law_positional_bindings_distinct(i as nat, j as nat);
}

/// The plan for the fields of a struct or a variant.
fn plan_variant(ident: Option<String>, fields: &FieldsInput) -> (r: Result<VariantPlan, AttrError>)
    ensures
        r is Ok <==> all_fields_ok(fields_of(*fields)),
        r matches Ok(p) ==> variant_plan_matches(p, ident.deep_view(), *fields),
        r matches Err(e) ==> fields_fault(fields_of(*fields), e@),
{
    let (named, planned) = match fields {
        FieldsInput::Named(list) => (true, plan_field_list(list, true)),
        FieldsInput::Unnamed(list) => (false, plan_field_list(list, false)),
        FieldsInput::Unit => (false, Ok(Vec::new())),
    };
    match planned {
        Ok(plans) => {
            let kind = kind_of(named, plans.len());
            Ok(VariantPlan { ident, named, kind, fields: plans })
        },
        Err(e) => Err(e),
    }
}

/// Every variant of `vs` has fields whose attributes the derive accepts.
pub open spec fn all_variants_ok(vs: Seq<VariantInput>) -> bool {
    forall|k: int| 0 <= k < vs.len() ==> all_fields_ok(fields_of((#[trigger] vs[k]).fields))
}

/// The first refusal among the fields of the variants `vs`, taken in order, is `e`.
pub open spec fn variants_fault(vs: Seq<VariantInput>, e: AttrFault) -> bool {
    exists|k: int|
        0 <= k < vs.len() && (forall|j: int| 0 <= j < k ==> all_fields_ok(fields_of((#[trigger] vs[j]).fields)))
            && fields_fault(fields_of(vs[k].fields), e)
}

/// The derive accepts `t`: its attributes and those of its fields are sound, and it is
/// a struct or an enum.
pub open spec fn derive_accepts(t: TypeInput) -> bool {
    &&& type_attrs_outcome(t.attrs@) is Ok
    &&& match t.data {
        DataInput::Struct(fields) => all_fields_ok(fields_of(fields)),
        DataInput::Enum(vs) => all_variants_ok(vs@),
        DataInput::Union => false,
    }
}

/// The derive refuses `t` with `e`: the first refusal among the type's attributes; else,
/// for a union, `Union`; else the first refusal among the attributes of its fields.
pub open spec fn derive_fault(t: TypeInput, e: DeriveFault) -> bool {
    match type_attrs_outcome(t.attrs@) {
        Err(f) => e == DeriveFault::Attr(f),
        Ok(()) => match t.data {
            DataInput::Union => e == DeriveFault::Union,
            DataInput::Struct(fields) => e matches DeriveFault::Attr(f) && fields_fault(fields_of(fields), f),
            DataInput::Enum(vs) => e matches DeriveFault::Attr(f) && variants_fault(vs@, f),
        },
    }
}

/// The name of the folded type of a type named `ident`.
pub open spec fn folded_name(ident: Seq<char>) -> Seq<char> {
    ident + "_Casserole"@
}

/// What the derive does with a type.
pub struct Plan {
    /// The name of the folded type.
    pub folded_ident: String,
    /// Whether the type is an enum.
    pub is_enum: bool,
    /// For a struct, its one body; for an enum, its variants in order.
    pub variants: Vec<VariantPlan>,
    /// The type parameters, in order, that the generated code bounds: each must fold in
    /// the store, and its target be readable back.
    pub bounded: Vec<String>,
}

/// `p` is the plan for `t`.
pub open spec fn plan_matches(p: Plan, t: TypeInput) -> bool {
    &&& p.folded_ident@ == folded_name(t.ident@)
    &&& p.is_enum == (t.data is Enum)
    &&& p.bounded@.len() == type_params(t.generics@).len()
    &&& forall|i: int| 0 <= i < p.bounded@.len() ==> #[trigger] p.bounded@[i]@ == type_params(t.generics@)[i]
    &&& match t.data {
        DataInput::Struct(fields) => p.variants@.len() == 1 && variant_plan_matches(p.variants@[0], None, fields),
        DataInput::Enum(vs) => p.variants@.len() == vs@.len() && forall|k: int|
            0 <= k < vs@.len() ==> variant_plan_matches(
                #[trigger] p.variants@[k],
                Some(vs@[k].ident@),
                vs@[k].fields,
            ),
        DataInput::Union => false,
    }
}

/// The plans for the variants `vs`, or the first refusal among their fields' attributes.
fn plan_variants(vs: &Vec<VariantInput>) -> (r: Result<Vec<VariantPlan>, AttrError>)
    ensures
        r is Ok <==> all_variants_ok(vs@),
        r matches Ok(plans) ==> plans@.len() == vs@.len() && forall|k: int|
            0 <= k < vs@.len() ==> variant_plan_matches(
                #[trigger] plans@[k],
                Some(vs@[k].ident@),
                vs@[k].fields,
            ),
        r matches Err(e) ==> variants_fault(vs@, e@),
{
    let mut plans: Vec<VariantPlan> = Vec::new();
    let mut k: usize = 0;
    while k < vs.len()
        invariant
            k <= vs@.len(),
            plans@.len() == k,
            forall|j: int| 0 <= j < k ==> all_fields_ok(fields_of((#[trigger] vs@[j]).fields)),
            forall|j: int|
                0 <= j < k ==> variant_plan_matches(#[trigger] plans@[j], Some(vs@[j].ident@), vs@[j].fields),
        decreases vs@.len() - k,
    {
        let variant = &vs[k];
        match plan_variant(Some(variant.ident.clone()), &variant.fields) {
            Ok(p) => {
                plans.push(p);
            },
            Err(e) => {
                return Err(e);
            },
        }
        k = k + 1;
    }
    Ok(plans)
}

/// What the derive does with `t`: the plan where it accepts `t`, else the first refusal,
/// in the order in which the derive meets them.
pub fn plan_outcome(t: &TypeInput) -> (r: Result<Plan, DeriveError>)
    ensures
        r is Ok <==> derive_accepts(*t),
        r matches Ok(p) ==> plan_matches(p, *t),
        r matches Err(e) ==> derive_fault(*t, e@),
{
    match check_type_attrs(&t.attrs) {
        Ok(()) => {},
        Err(e) => {
            return Err(DeriveError::Attr(e));
        },
    }
    let mut folded_ident = t.ident.clone();
    folded_ident.append("_Casserole");
    let bounded = type_params_of(&t.generics);
    match &t.data {
        DataInput::Struct(fields) => match plan_variant(None, fields) {
            Ok(p) => {
                let mut variants: Vec<VariantPlan> = Vec::new();
                variants.push(p);
                Ok(Plan { folded_ident, is_enum: false, variants, bounded })
            },
            Err(e) => Err(DeriveError::Attr(e)),
        },
        DataInput::Enum(vs) => match plan_variants(vs) {
            Ok(variants) => Ok(Plan { folded_ident, is_enum: true, variants, bounded }),
            Err(e) => Err(DeriveError::Attr(e)),
        },
        DataInput::Union => Err(DeriveError::Union),
    }
}

/// What the derive does with `t`, a type that it accepts (`plan_outcome` gives
/// `Ok`): the folded type's name, and for each body the way it is rebuilt and, for
/// each field, its binding and whether it goes to the store.
pub fn plan_derive(t: &TypeInput) -> (plan: Plan)
    requires
        derive_accepts(*t),
    ensures
        plan_matches(plan, *t),
{
    match plan_outcome(t) {
        Ok(plan) => plan,
        Err(_) => vstd::pervasive::unreached(),
    }
}

/// `token` is a round-bracket group that opens with the term `store`.
pub open spec fn is_store_group(token: AttrToken) -> bool {
    token matches AttrToken::Group(Delim::Parenthesis, inner) && attr_term(inner@) == Some("store"@)
}

/// The attributes of this derive among `attrs`, in order.
pub open spec fn casserole_attrs(attrs: Seq<AttrInput>) -> Seq<AttrInput> {
    attrs.filter(|a: AttrInput| is_casserole_attr(a))
}

/// Attributes of other derives (or doc comments) never change what a field's attributes
/// come to: inserting one anywhere among them leaves the outcome as it was.
pub proof fn law_field_attrs_ignore_others(
    attrs: Seq<AttrInput>,
    i: int,
    other: AttrInput,
    store: bool,
)
    requires
        0 <= i <= attrs.len(),
        !is_casserole_attr(other),
    ensures
        field_attrs_outcome(attrs.insert(i, other), store) == field_attrs_outcome(attrs, store),
    decreases i,
{
    let ins = attrs.insert(i, other);
    if i == 0 {
        assert(ins.drop_first() =~= attrs);
    } else {
        assert(ins[0] == attrs[0]);
        assert(ins.drop_first() =~= attrs.drop_first().insert(i - 1, other));
        if is_casserole_attr(attrs[0]) {
            match field_tokens_outcome(attrs[0].tokens@, attrs[0].text@, store) {
                Ok(s) => law_field_attrs_ignore_others(attrs.drop_first(), i - 1, other, s),
                Err(_) => {},
            }
        } else {
            law_field_attrs_ignore_others(attrs.drop_first(), i - 1, other, store);
        }
    }
}

/// Attributes of other derives never change what a type's attributes come to:
/// inserting one anywhere among them leaves the outcome as it was.
pub proof fn law_type_attrs_ignore_others(attrs: Seq<AttrInput>, i: int, other: AttrInput)
    requires
        0 <= i <= attrs.len(),
        !is_casserole_attr(other),
    ensures
        type_attrs_outcome(attrs.insert(i, other)) == type_attrs_outcome(attrs),
    decreases i,
{
    let ins = attrs.insert(i, other);
    if i == 0 {
        assert(ins.drop_first() =~= attrs);
    } else {
        assert(ins[0] == attrs[0]);
        assert(ins.drop_first() =~= attrs.drop_first().insert(i - 1, other));
        law_type_attrs_ignore_others(attrs.drop_first(), i - 1, other);
    }
}

/// What a field's attributes come to is what its casserole attributes alone come to.
pub proof fn law_field_attrs_only_casserole(attrs: Seq<AttrInput>, store: bool)
    ensures
        field_attrs_outcome(attrs, store) == field_attrs_outcome(casserole_attrs(attrs), store),
    decreases attrs.len(),
{
    if attrs.len() > 0 {
        let p = |a: AttrInput| is_casserole_attr(a);
        let x = attrs[0];
        let r = attrs.drop_first();
        assert(attrs =~= seq![x] + r);
        Seq::filter_distributes_over_add(seq![x], r, p);
        reveal_with_fuel(Seq::filter, 2);
        assert(seq![x].drop_last() =~= Seq::<AttrInput>::empty());
        assert(Seq::<AttrInput>::empty().filter(p) =~= Seq::<AttrInput>::empty());
        assert(seq![x].last() == x);
        let f = casserole_attrs(attrs);
        if is_casserole_attr(x) {
            assert(seq![x].filter(p) =~= seq![x]);
            assert(f =~= seq![x] + r.filter(p));
            assert(f[0] == x);
            assert(f.drop_first() =~= casserole_attrs(r));
            match field_tokens_outcome(x.tokens@, x.text@, store) {
                Ok(s) => law_field_attrs_only_casserole(r, s),
                Err(_) => {},
            }
        } else {
            assert(seq![x].filter(p) =~= Seq::<AttrInput>::empty());
            assert(f =~= casserole_attrs(r));
            law_field_attrs_only_casserole(r, store);
        }
    }
}

/// Once a field is marked for the store, the tokens that follow cannot unmark it.
proof fn lemma_field_tokens_keep_store(tokens: Seq<AttrToken>, text: Seq<char>, store: bool)
    ensures
        field_tokens_outcome(tokens, text, store) matches Ok(b) ==> (store ==> b),
    decreases tokens.len(),
{
    if tokens.len() > 0 {
        lemma_field_tokens_keep_store(tokens.drop_first(), text, store);
        lemma_field_tokens_keep_store(tokens.drop_first(), text, true);
    }
}

/// A `(store)` group among the tokens of an accepted field attribute marks the field for
/// the store.
proof fn lemma_field_tokens_store(tokens: Seq<AttrToken>, text: Seq<char>, store: bool, j: int)
    requires
        0 <= j < tokens.len(),
        is_store_group(tokens[j]),
    ensures
        field_tokens_outcome(tokens, text, store) matches Ok(b) ==> b,
    decreases j,
{
    if j == 0 {
        lemma_field_tokens_keep_store(tokens.drop_first(), text, true);
    } else {
        assert(tokens.drop_first()[j - 1] == tokens[j]);
        lemma_field_tokens_store(tokens.drop_first(), text, store, j - 1);
        lemma_field_tokens_store(tokens.drop_first(), text, true, j - 1);
    }
}

/// Once a field is marked for the store, the attributes that follow cannot unmark it.
proof fn lemma_field_attrs_keep_store(attrs: Seq<AttrInput>, store: bool)
    ensures
        field_attrs_outcome(attrs, store) matches Ok(b) ==> (store ==> b),
    decreases attrs.len(),
{
    if attrs.len() > 0 {
        if is_casserole_attr(attrs[0]) {
            lemma_field_tokens_keep_store(attrs[0].tokens@, attrs[0].text@, store);
            match field_tokens_outcome(attrs[0].tokens@, attrs[0].text@, store) {
                Ok(s) => lemma_field_attrs_keep_store(attrs.drop_first(), s),
                Err(_) => {},
            }
        } else {
            lemma_field_attrs_keep_store(attrs.drop_first(), store);
        }
    }
}

/// A field whose attributes are accepted and hold a casserole attribute with a `(store)`
/// group goes to the store, wherever that attribute stands among the others.
pub proof fn law_field_store_attr_marks(attrs: Seq<AttrInput>, store: bool, i: int, j: int)
    requires
        0 <= i < attrs.len(),
        is_casserole_attr(attrs[i]),
        0 <= j < attrs[i].tokens@.len(),
        is_store_group(attrs[i].tokens@[j]),
        field_attrs_outcome(attrs, store) is Ok,
    ensures
        field_attrs_outcome(attrs, store) == Ok::<bool, AttrFault>(true),
    decreases i,
{
    if i == 0 {
        let x = attrs[0];
        lemma_field_tokens_store(x.tokens@, x.text@, store, j);
        match field_tokens_outcome(x.tokens@, x.text@, store) {
            Ok(s) => lemma_field_attrs_keep_store(attrs.drop_first(), s),
            Err(_) => {},
        }
    } else {
        assert(attrs.drop_first()[i - 1] == attrs[i]);
        if is_casserole_attr(attrs[0]) {
            match field_tokens_outcome(attrs[0].tokens@, attrs[0].text@, store) {
                Ok(s) => law_field_store_attr_marks(attrs.drop_first(), s, i - 1, j),
                Err(_) => {},
            }
        } else {
            law_field_store_attr_marks(attrs.drop_first(), store, i - 1, j);
        }
    }
}

/// The name of a generic parameter where it is a type parameter.
pub open spec fn type_param_name(g: GenericInput) -> Option<Seq<char>> {
    match g {
        GenericInput::Type(name) => Some(name@),
        _ => None,
    }
}

/// The type parameters are exactly the names of the `Type` entries, in order: the
/// lifetimes and constants dropped, nothing else.
pub proof fn law_type_params_are_type_names(gs: Seq<GenericInput>)
    ensures
        type_params(gs) == gs.filter_map(|g: GenericInput| type_param_name(g)),
    decreases gs.len(),
{
    if gs.len() > 0 {
        law_type_params_are_type_names(gs.drop_last());
    }
}

/// Appending a generic parameter appends its name where it is a type parameter, and
/// nothing else: to an empty list too.
pub proof fn law_type_params_push(gs: Seq<GenericInput>, g: GenericInput)
    ensures
        type_params(gs.push(g)) == match g {
            GenericInput::Type(name) => type_params(gs).push(name@),
            _ => type_params(gs),
        },
        type_params(Seq::<GenericInput>::empty()) == Seq::<Seq<char>>::empty(),
{
    assert(gs.push(g).drop_last() =~= gs);
}

/// Every type parameter is among those the generated code bounds, and every name bounded
/// is that of a type parameter.
pub proof fn law_type_params_members(gs: Seq<GenericInput>)
    ensures
        forall|i: int|
            0 <= i < gs.len() ==> (#[trigger] gs[i] matches GenericInput::Type(name) ==> type_params(
                gs,
            ).contains(name@)),
        forall|j: int|
            0 <= j < type_params(gs).len() ==> exists|i: int|
                0 <= i < gs.len() && type_param_name(#[trigger] gs[i]) == Some(
                    #[trigger] type_params(gs)[j],
                ),
    decreases gs.len(),
{
    if gs.len() > 0 {
        let d = gs.drop_last();
        law_type_params_members(d);
        let tp = type_params(gs);
        let td = type_params(d);
        assert forall|i: int|
            0 <= i < gs.len() implies (#[trigger] gs[i] matches GenericInput::Type(name) ==> tp.contains(
                name@,
            )) by {
            if let GenericInput::Type(name) = gs[i] {
                if i < gs.len() - 1 {
                    assert(d[i] == gs[i]);
                    assert(td.contains(name@));
                    let k = choose|k: int| 0 <= k < td.len() && td[k] == name@;
                    assert(tp[k] == name@);
                } else {
                    assert(tp[tp.len() - 1] == name@);
                }
            }
        }
        assert forall|j: int| 0 <= j < tp.len() implies exists|i: int|
            0 <= i < gs.len() && type_param_name(#[trigger] gs[i]) == Some(#[trigger] tp[j]) by {
            if j < td.len() {
                assert(tp[j] == td[j]);
                let i = choose|i: int| 0 <= i < d.len() && type_param_name(#[trigger] d[i]) == Some(td[j]);
                assert(gs[i] == d[i]);
            } else {
                assert(type_param_name(gs[gs.len() - 1]) == Some(tp[j]));
            }
        }
    }
}

} // verus!
