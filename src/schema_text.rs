//! Endpoint declarations as text:
//!
//! ```text
//! endpoint Name {
//!     method(Type argument, ...) => (Type result, ...)
//!     other(Type argument) =|
//! }
//! ```
//!
//! A method whose declaration ends in `|` (alone or as `=|`) has no response.
//! Methods may be separated by commas. A type is a path (`Core::AnonymousBuffer`)
//! with optional generic arguments (`HashMap<String, String>`); a field may
//! carry a leading attribute in brackets, which is skipped.
use crate::schema::{method_ids, method_ids_spec, MethodIds};
use vstd::prelude::*;
use vstd::string::StrSliceExecFns;

verus! {

pub open spec fn is_ident_char(c: char) -> bool {
    ('a' <= c && c <= 'z') || ('A' <= c && c <= 'Z') || ('0' <= c && c <= '9') || c == '_'
}

pub open spec fn is_space(c: char) -> bool {
    c == ' ' || c == '\n' || c == '\t' || c == '\r'
}

pub open spec fn is_symbol(c: char) -> bool {
    c == '{' || c == '}' || c == '(' || c == ')' || c == ',' || c == '<' || c == '>' || c == ':'
        || c == '=' || c == '|' || c == '[' || c == ']'
}

/// A token: an identifier (`true`) or a one-character symbol, and its text.
pub type TokenView = (bool, Seq<char>);

/// The identifier being read, as a token list of zero or one element.
pub open spec fn pending(cur: Seq<char>) -> Seq<TokenView> {
    if cur.len() > 0 {
        seq![(true, cur)]
    } else {
        seq![]
    }
}

/// The tokens of `s` from position `i` on, `cur` being the identifier
/// characters read just before `i`; `None` at a character that is neither
/// space, identifier nor symbol.
pub open spec fn lex_from(s: Seq<char>, i: int, cur: Seq<char>) -> Option<Seq<TokenView>>
    decreases s.len() - i,
{
    if i >= s.len() || i < 0 {
        Some(pending(cur))
    } else {
        let c = s[i];
        if is_ident_char(c) {
            lex_from(s, i + 1, cur.push(c))
        } else if is_space(c) {
            match lex_from(s, i + 1, seq![]) {
                Some(rest) => Some(pending(cur) + rest),
                None => None,
            }
        } else if is_symbol(c) {
            match lex_from(s, i + 1, seq![]) {
                Some(rest) => Some(pending(cur) + seq![(false, seq![c])] + rest),
                None => None,
            }
        } else {
            None
        }
    }
}

pub open spec fn lex(s: Seq<char>) -> Option<Seq<TokenView>> {
    lex_from(s, 0, seq![])
}

pub struct Token {
    pub is_ident: bool,
    pub text: String,
}

impl View for Token {
    type V = TokenView;

    open spec fn view(&self) -> TokenView {
        (self.is_ident, self.text@)
    }
}

pub open spec fn tokens_view(t: Seq<Token>) -> Seq<TokenView> {
    t.map_values(|x: Token| x@)
}

fn is_ident_char_exec(c: char) -> (r: bool)
    ensures
        r == is_ident_char(c),
{
    ('a' <= c && c <= 'z') || ('A' <= c && c <= 'Z') || ('0' <= c && c <= '9') || c == '_'
}

fn is_space_exec(c: char) -> (r: bool)
    ensures
        r == is_space(c),
{
    c == ' ' || c == '\n' || c == '\t' || c == '\r'
}

fn is_symbol_exec(c: char) -> (r: bool)
    ensures
        r == is_symbol(c),
{
    c == '{' || c == '}' || c == '(' || c == ')' || c == ',' || c == '<' || c == '>' || c == ':'
        || c == '=' || c == '|' || c == '[' || c == ']'
}

/// The tokens of `text`; `None` at a character that no token may hold.
pub fn tokenize(text: &str) -> (r: Option<Vec<Token>>)
    ensures
        match lex(text@) {
            Some(t) => r matches Some(v) && tokens_view(v@) == t,
            None => r is None,
        },
{
    let n = text.unicode_len();
    let ghost s = text@;
    let mut out: Vec<Token> = Vec::new();
    let mut start: usize = 0;
    let mut i: usize = 0;
    proof {
        assert(s.subrange(0, 0) =~= Seq::<char>::empty());
        assert(tokens_view(out@) =~= Seq::<TokenView>::empty());
        if let Some(t) = lex(s) {
            assert(Seq::<TokenView>::empty() + t =~= t);
        }
    }
    while i < n
        invariant
            n == s.len(),
            s == text@,
            start <= i <= n,
            match lex(s) {
                Some(t) => lex_from(s, i as int, s.subrange(start as int, i as int)) matches Some(
                    rest,
                ) && t == tokens_view(out@) + rest,
                None => lex_from(s, i as int, s.subrange(start as int, i as int)) is None,
            },
        decreases n - i,
    {
        let c = text.get_char(i);
        let ghost cur = s.subrange(start as int, i as int);
        if is_ident_char_exec(c) {
            proof {
                assert(cur.push(c) =~= s.subrange(start as int, i + 1));
            }
            i = i + 1;
        } else if is_space_exec(c) || is_symbol_exec(c) {
            let ghost before = tokens_view(out@);
            if start < i {
                let word = String::from_str(text.substring_char(start, i));
                out.push(Token { is_ident: true, text: word });
            }
            proof {
                assert(tokens_view(out@) =~= before + pending(cur));
            }
            if is_symbol_exec(c) {
                let sym = String::from_str(text.substring_char(i, i + 1));
                let ghost mid = tokens_view(out@);
                out.push(Token { is_ident: false, text: sym });
                proof {
                    assert(s.subrange(i as int, i + 1) =~= seq![c]);
                    assert(tokens_view(out@) =~= mid + seq![(false, seq![c])]);
                }
            }
            i = i + 1;
            start = i;
            proof {
                assert(s.subrange(start as int, i as int) =~= Seq::<char>::empty());
                if let Some(t) = lex(s) {
                    let rest = lex_from(s, i as int, seq![]).unwrap();
                    if is_symbol(c) {
                        assert(t == before + (pending(cur) + seq![(false, seq![c])] + rest));
                        assert(t =~= tokens_view(out@) + rest);
                    } else {
                        assert(t =~= tokens_view(out@) + rest);
                    }
                }
            }
        } else {
            return None;
        }
    }
    let ghost before = tokens_view(out@);
    let ghost cur = s.subrange(start as int, i as int);
    if start < i {
        let word = String::from_str(text.substring_char(start, i));
        out.push(Token { is_ident: true, text: word });
    }
    proof {
        assert(tokens_view(out@) =~= before + pending(cur));
    }
    Some(out)
}

/// A field: its type, as written without spaces, and its name.
pub type FieldView = (Seq<char>, Seq<char>);

pub ghost struct MethodView {
    pub name: Seq<char>,
    pub arguments: Seq<FieldView>,
    pub returns: Seq<FieldView>,
    pub has_response: bool,
}

pub ghost struct EndpointView {
    pub name: Seq<char>,
    pub methods: Seq<MethodView>,
}

/// Where the parser stands between two tokens. `depth` counts the generic
/// argument lists open in the type being read.
#[derive(Clone, Copy, PartialEq, Eq, Structural)]
pub enum Phase {
    Start,
    Name,
    Open,
    MethodOrEnd,
    ArgsOpen,
    FieldOrClose,
    Attribute,
    FieldStart,
    TypeName { depth: u32 },
    TypeColon { depth: u32 },
    TypeSecondColon { depth: u32 },
    TypeArgument { depth: u32 },
    AfterField,
    AfterList,
    AfterEquals,
    ReturnsOpen,
    NoResponse,
    Done,
}

pub ghost struct ParseState {
    pub phase: Phase,
    pub name: Seq<char>,
    pub methods: Seq<MethodView>,
    /// Whether the list being read is the method's results.
    pub in_returns: bool,
    /// Whether the current method's results have been read.
    pub had_returns: bool,
    /// The type being read.
    pub ty: Seq<char>,
}

pub open spec fn initial_state() -> ParseState {
    ParseState {
        phase: Phase::Start,
        name: seq![],
        methods: seq![],
        in_returns: false,
        had_returns: false,
        ty: seq![],
    }
}

pub open spec fn is_sym(t: TokenView, c: char) -> bool {
    !t.0 && t.1 == seq![c]
}

/// Whether `t` may stand inside an attribute.
pub open spec fn attribute_token(t: TokenView) -> bool {
    !(is_sym(t, '{') || is_sym(t, '}') || is_sym(t, '(') || is_sym(t, ')') || is_sym(t, '['))
}

/// A method called `name` with no fields yet; it has a response unless marked.
pub open spec fn new_method(name: Seq<char>) -> MethodView {
    MethodView { name, arguments: seq![], returns: seq![], has_response: true }
}

pub open spec fn begin_method(st: ParseState, name: Seq<char>) -> ParseState {
    ParseState {
        phase: Phase::ArgsOpen,
        methods: st.methods.push(new_method(name)),
        in_returns: false,
        had_returns: false,
        ..st
    }
}

/// The current (last) method with `f` added to the list being read.
pub open spec fn add_field(st: ParseState, f: FieldView) -> Option<ParseState> {
    if st.methods.len() == 0 {
        None
    } else {
        let m = st.methods.last();
        let m2 = if st.in_returns {
            MethodView { returns: m.returns.push(f), ..m }
        } else {
            MethodView { arguments: m.arguments.push(f), ..m }
        };
        Some(
            ParseState {
                phase: Phase::AfterField,
                methods: st.methods.update(st.methods.len() - 1, m2),
                ..st
            },
        )
    }
}

/// The current method marked as having no response.
pub open spec fn mark_no_response(st: ParseState) -> Option<ParseState> {
    if st.methods.len() == 0 {
        None
    } else {
        let m = st.methods.last();
        Some(
            ParseState {
                phase: Phase::NoResponse,
                methods: st.methods.update(
                    st.methods.len() - 1,
                    MethodView { has_response: false, ..m },
                ),
                ..st
            },
        )
    }
}

pub open spec fn close_list(st: ParseState) -> ParseState {
    ParseState { phase: Phase::AfterList, had_returns: st.in_returns, ..st }
}

/// What one more token does to the parser; `None` where it may not stand.
pub open spec fn step(st: ParseState, t: TokenView) -> Option<ParseState> {
    match st.phase {
        Phase::Start => if t.0 && t.1 == "endpoint"@ {
            Some(ParseState { phase: Phase::Name, ..st })
        } else {
            None
        },
        Phase::Name => if t.0 {
            Some(ParseState { phase: Phase::Open, name: t.1, ..st })
        } else {
            None
        },
        Phase::Open => if is_sym(t, '{') {
            Some(ParseState { phase: Phase::MethodOrEnd, ..st })
        } else {
            None
        },
        Phase::MethodOrEnd => if is_sym(t, '}') {
            Some(ParseState { phase: Phase::Done, ..st })
        } else if t.0 {
            Some(begin_method(st, t.1))
        } else {
            None
        },
        Phase::ArgsOpen => if is_sym(t, '(') {
            Some(ParseState { phase: Phase::FieldOrClose, ..st })
        } else {
            None
        },
        Phase::FieldOrClose => if is_sym(t, ')') {
            Some(close_list(st))
        } else if is_sym(t, '[') {
            Some(ParseState { phase: Phase::Attribute, ..st })
        } else if t.0 {
            Some(ParseState { phase: Phase::TypeName { depth: 0 }, ty: t.1, ..st })
        } else {
            None
        },
        Phase::Attribute => if is_sym(t, ']') {
            Some(ParseState { phase: Phase::FieldStart, ..st })
        } else if attribute_token(t) {
            Some(st)
        } else {
            None
        },
        Phase::FieldStart => if t.0 {
            Some(ParseState { phase: Phase::TypeName { depth: 0 }, ty: t.1, ..st })
        } else if is_sym(t, '[') {
            Some(ParseState { phase: Phase::Attribute, ..st })
        } else {
            None
        },
        Phase::TypeName { depth } => if t.0 && depth == 0 {
            add_field(st, (st.ty, t.1))
        } else if is_sym(t, ':') {
            Some(ParseState { phase: Phase::TypeColon { depth }, ty: st.ty + t.1, ..st })
        } else if is_sym(t, '<') && depth < u32::MAX {
            Some(
                ParseState {
                    phase: Phase::TypeArgument { depth: (depth + 1) as u32 },
                    ty: st.ty + t.1,
                    ..st
                },
            )
        } else if is_sym(t, ',') && depth > 0 {
            Some(ParseState { phase: Phase::TypeArgument { depth }, ty: st.ty + t.1, ..st })
        } else if is_sym(t, '>') && depth > 0 {
            Some(
                ParseState {
                    phase: Phase::TypeName { depth: (depth - 1) as u32 },
                    ty: st.ty + t.1,
                    ..st
                },
            )
        } else {
            None
        },
        Phase::TypeColon { depth } => if is_sym(t, ':') {
            Some(ParseState { phase: Phase::TypeSecondColon { depth }, ty: st.ty + t.1, ..st })
        } else {
            None
        },
        Phase::TypeSecondColon { depth } | Phase::TypeArgument { depth } => if t.0 {
            Some(ParseState { phase: Phase::TypeName { depth }, ty: st.ty + t.1, ..st })
        } else {
            None
        },
        Phase::AfterField => if is_sym(t, ',') {
            Some(ParseState { phase: Phase::FieldStart, ..st })
        } else if is_sym(t, ')') {
            Some(close_list(st))
        } else {
            None
        },
        Phase::AfterList => if is_sym(t, '=') {
            Some(ParseState { phase: Phase::AfterEquals, ..st })
        } else if is_sym(t, '|') {
            mark_no_response(st)
        } else if is_sym(t, ',') {
            Some(ParseState { phase: Phase::MethodOrEnd, ..st })
        } else if is_sym(t, '}') {
            Some(ParseState { phase: Phase::Done, ..st })
        } else if t.0 {
            Some(begin_method(st, t.1))
        } else {
            None
        },
        Phase::AfterEquals => if is_sym(t, '>') && !st.had_returns {
            Some(ParseState { phase: Phase::ReturnsOpen, ..st })
        } else if is_sym(t, '|') {
            mark_no_response(st)
        } else {
            None
        },
        Phase::ReturnsOpen => if is_sym(t, '(') {
            Some(ParseState { phase: Phase::FieldOrClose, in_returns: true, ..st })
        } else {
            None
        },
        Phase::NoResponse => if is_sym(t, ',') {
            Some(ParseState { phase: Phase::MethodOrEnd, ..st })
        } else if is_sym(t, '}') {
            Some(ParseState { phase: Phase::Done, ..st })
        } else if t.0 {
            Some(begin_method(st, t.1))
        } else {
            None
        },
        Phase::Done => None,
    }
}

/// The parser after the tokens of `t` from position `i` on.
pub open spec fn run(t: Seq<TokenView>, i: int, st: ParseState) -> Option<ParseState>
    decreases t.len() - i,
{
    if i >= t.len() || i < 0 {
        Some(st)
    } else {
        match step(st, t[i]) {
            None => None,
            Some(next) => run(t, i + 1, next),
        }
    }
}

/// The endpoint that `text` declares; `None` when it declares none.
pub open spec fn parse_endpoint(text: Seq<char>) -> Option<EndpointView> {
    match lex(text) {
        None => None,
        Some(t) => match run(t, 0, initial_state()) {
            Some(st) => if st.phase == Phase::Done {
                Some(EndpointView { name: st.name, methods: st.methods })
            } else {
                None
            },
            None => None,
        },
    }
}

pub struct Field {
    pub field_type: String,
    pub name: String,
}

impl View for Field {
    type V = FieldView;

    open spec fn view(&self) -> FieldView {
        (self.field_type@, self.name@)
    }
}

pub open spec fn fields_view(f: Seq<Field>) -> Seq<FieldView> {
    f.map_values(|x: Field| x@)
}

/// A method as declared: its name, fields, and whether it has a response.
pub struct MethodDecl {
    pub name: String,
    pub arguments: Vec<Field>,
    pub returns: Vec<Field>,
    pub has_response: bool,
}

impl View for MethodDecl {
    type V = MethodView;

    open spec fn view(&self) -> MethodView {
        MethodView {
            name: self.name@,
            arguments: fields_view(self.arguments@),
            returns: fields_view(self.returns@),
            has_response: self.has_response,
        }
    }
}

pub open spec fn methods_view(m: Seq<MethodDecl>) -> Seq<MethodView> {
    m.map_values(|x: MethodDecl| x@)
}

/// An endpoint as declared.
pub struct Endpoint {
    pub name: String,
    pub methods: Vec<MethodDecl>,
}

impl View for Endpoint {
    type V = EndpointView;

    open spec fn view(&self) -> EndpointView {
        EndpointView { name: self.name@, methods: methods_view(self.methods@) }
    }
}

struct Parser {
    phase: Phase,
    name: String,
    methods: Vec<MethodDecl>,
    in_returns: bool,
    had_returns: bool,
    ty: String,
}

impl View for Parser {
    type V = ParseState;

    closed spec fn view(&self) -> ParseState {
        ParseState {
            phase: self.phase,
            name: self.name@,
            methods: methods_view(self.methods@),
            in_returns: self.in_returns,
            had_returns: self.had_returns,
            ty: self.ty@,
        }
    }
}

fn sym_is(t: &Token, c: char) -> (r: bool)
    ensures
        r == is_sym(t@, c),
{
    if t.is_ident {
        return false;
    }
    let text = t.text.as_str();
    if text.unicode_len() != 1 {
        return false;
    }
    let d = text.get_char(0);
    proof {
        if d == c {
            assert(t.text@ =~= seq![c]);
        } else {
            assert(seq![c][0] == c);
        }
    }
    d == c
}

impl Parser {
    fn begin_method(&mut self, t: &Token)
        requires
            t@.0,
        ensures
            final(self)@ == begin_method(old(self)@, t@.1),
    {
        let m = MethodDecl {
            name: t.text.clone(),
            arguments: Vec::new(),
            returns: Vec::new(),
            has_response: true,
        };
        assert(m@ == new_method(t@.1)) by {
            assert(fields_view(m.arguments@) =~= Seq::<FieldView>::empty());
            assert(fields_view(m.returns@) =~= Seq::<FieldView>::empty());
        }
        let ghost before = self.methods@;
        self.methods.push(m);
        assert(methods_view(self.methods@) =~= methods_view(before).push(m@));
        self.phase = Phase::ArgsOpen;
        self.in_returns = false;
        self.had_returns = false;
    }

    fn add_field(&mut self, t: &Token) -> (ok: bool)
        ensures
            match add_field(old(self)@, (old(self)@.ty, t@.1)) {
                Some(n) => ok && final(self)@ == n,
                None => !ok,
            },
    {
        let ghost old_view = self@;
        let mut m = match self.methods.pop() {
            Some(m) => m,
            None => {
                return false;
            },
        };
        let ghost mv = m@;
        let f = Field { field_type: self.ty.clone(), name: t.text.clone() };
        if self.in_returns {
            let ghost before = m.returns@;
            m.returns.push(f);
            assert(fields_view(m.returns@) =~= fields_view(before).push(f@));
        } else {
            let ghost before = m.arguments@;
            m.arguments.push(f);
            assert(fields_view(m.arguments@) =~= fields_view(before).push(f@));
        }
        let ghost popped = self.methods@;
        self.methods.push(m);
        self.phase = Phase::AfterField;
        proof {
            let ms = old_view.methods;
            assert(ms.last() == mv);
            assert(methods_view(self.methods@) =~= ms.update(ms.len() - 1, m@));
        }
        true
    }

    fn mark_no_response(&mut self) -> (ok: bool)
        ensures
            match mark_no_response(old(self)@) {
                Some(n) => ok && final(self)@ == n,
                None => !ok,
            },
    {
        let ghost old_view = self@;
        let mut m = match self.methods.pop() {
            Some(m) => m,
            None => {
                return false;
            },
        };
        let ghost mv = m@;
        m.has_response = false;
        self.methods.push(m);
        self.phase = Phase::NoResponse;
        proof {
            let ms = old_view.methods;
            assert(ms.last() == mv);
            assert(methods_view(self.methods@) =~= ms.update(
                ms.len() - 1,
                MethodView { has_response: false, ..mv },
            ));
        }
        true
    }

    fn close_list(&mut self)
        ensures
            final(self)@ == close_list(old(self)@),
    {
        self.phase = Phase::AfterList;
        self.had_returns = self.in_returns;
    }

    fn extend_type(&mut self, t: &Token, phase: Phase)
        ensures
            final(self)@ == (ParseState { phase, ty: old(self)@.ty + t@.1, ..old(self)@ }),
    {
        self.ty.append(t.text.as_str());
        self.phase = phase;
    }

    /// Feeds one token; `false` where it may not stand.
    fn step(&mut self, t: &Token) -> (ok: bool)
        ensures
            match step(old(self)@, t@) {
                Some(n) => ok && final(self)@ == n,
                None => !ok,
            },
    {
        match self.phase {
            Phase::Start => {
                let keyword = String::from_str("endpoint");
                if t.is_ident && t.text == keyword {
                    self.phase = Phase::Name;
                    true
                } else {
                    false
                }
            },
            Phase::Name => {
                if t.is_ident {
                    self.name = t.text.clone();
                    self.phase = Phase::Open;
                    true
                } else {
                    false
                }
            },
            Phase::Open => {
                if sym_is(t, '{') {
                    self.phase = Phase::MethodOrEnd;
                    true
                } else {
                    false
                }
            },
            Phase::MethodOrEnd => {
                if sym_is(t, '}') {
                    self.phase = Phase::Done;
                    true
                } else if t.is_ident {
                    self.begin_method(t);
                    true
                } else {
                    false
                }
            },
            Phase::ArgsOpen => {
                if sym_is(t, '(') {
                    self.phase = Phase::FieldOrClose;
                    true
                } else {
                    false
                }
            },
            Phase::FieldOrClose => {
                if sym_is(t, ')') {
                    self.close_list();
                    true
                } else if sym_is(t, '[') {
                    self.phase = Phase::Attribute;
                    true
                } else if t.is_ident {
                    self.ty = t.text.clone();
                    self.phase = Phase::TypeName { depth: 0 };
                    true
                } else {
                    false
                }
            },
            Phase::Attribute => {
                if sym_is(t, ']') {
                    self.phase = Phase::FieldStart;
                    true
                } else {
                    !(sym_is(t, '{') || sym_is(t, '}') || sym_is(t, '(') || sym_is(t, ')')
                        || sym_is(t, '['))
                }
            },
            Phase::FieldStart => {
                if t.is_ident {
                    self.ty = t.text.clone();
                    self.phase = Phase::TypeName { depth: 0 };
                    true
                } else if sym_is(t, '[') {
                    self.phase = Phase::Attribute;
                    true
                } else {
                    false
                }
            },
            Phase::TypeName { depth } => {
                if t.is_ident && depth == 0 {
                    self.add_field(t)
                } else if sym_is(t, ':') {
                    self.extend_type(t, Phase::TypeColon { depth });
                    true
                } else if sym_is(t, '<') && depth < u32::MAX {
                    self.extend_type(t, Phase::TypeArgument { depth: depth + 1 });
                    true
                } else if sym_is(t, ',') && depth > 0 {
                    self.extend_type(t, Phase::TypeArgument { depth });
                    true
                } else if sym_is(t, '>') && depth > 0 {
                    self.extend_type(t, Phase::TypeName { depth: depth - 1 });
                    true
                } else {
                    false
                }
            },
            Phase::TypeColon { depth } => {
                if sym_is(t, ':') {
                    self.extend_type(t, Phase::TypeSecondColon { depth });
                    true
                } else {
                    false
                }
            },
            Phase::TypeSecondColon { depth } | Phase::TypeArgument { depth } => {
                if t.is_ident {
                    self.extend_type(t, Phase::TypeName { depth });
                    true
                } else {
                    false
                }
            },
            Phase::AfterField => {
                if sym_is(t, ',') {
                    self.phase = Phase::FieldStart;
                    true
                } else if sym_is(t, ')') {
                    self.close_list();
                    true
                } else {
                    false
                }
            },
            Phase::AfterList => {
                if sym_is(t, '=') {
                    self.phase = Phase::AfterEquals;
                    true
                } else if sym_is(t, '|') {
                    self.mark_no_response()
                } else if sym_is(t, ',') {
                    self.phase = Phase::MethodOrEnd;
                    true
                } else if sym_is(t, '}') {
                    self.phase = Phase::Done;
                    true
                } else if t.is_ident {
                    self.begin_method(t);
                    true
                } else {
                    false
                }
            },
            Phase::AfterEquals => {
                if sym_is(t, '>') && !self.had_returns {
                    self.phase = Phase::ReturnsOpen;
                    true
                } else if sym_is(t, '|') {
                    self.mark_no_response()
                } else {
                    false
                }
            },
            Phase::ReturnsOpen => {
                if sym_is(t, '(') {
                    self.phase = Phase::FieldOrClose;
                    self.in_returns = true;
                    true
                } else {
                    false
                }
            },
            Phase::NoResponse => {
                if sym_is(t, ',') {
                    self.phase = Phase::MethodOrEnd;
                    true
                } else if sym_is(t, '}') {
                    self.phase = Phase::Done;
                    true
                } else if t.is_ident {
                    self.begin_method(t);
                    true
                } else {
                    false
                }
            },
            Phase::Done => false,
        }
    }
}

/// The endpoint that `text` declares; `None` when it declares none.
pub fn parse_schema(text: &str) -> (r: Option<Endpoint>)
    ensures
        match parse_endpoint(text@) {
            Some(e) => r matches Some(x) && x@ == e,
            None => r is None,
        },
{
    let tokens = match tokenize(text) {
        Some(t) => t,
        None => {
            return None;
        },
    };
    let ghost tv = tokens_view(tokens@);
    let mut p = Parser {
        phase: Phase::Start,
        name: String::new(),
        methods: Vec::new(),
        in_returns: false,
        had_returns: false,
        ty: String::new(),
    };
    proof {
        assert(methods_view(p.methods@) =~= Seq::<MethodView>::empty());
        assert(p@ == initial_state());
    }
    let mut i: usize = 0;
    while i < tokens.len()
        invariant
            i <= tokens@.len(),
            tv == tokens_view(tokens@),
            lex(text@) == Some(tv),
            run(tv, 0, initial_state()) == run(tv, i as int, p@),
        decreases tokens@.len() - i,
    {
        assert(tv[i as int] == tokens@[i as int]@);
        let ghost before = p@;
        if !p.step(&tokens[i]) {
            assert(run(tv, i as int, before) is None);
            return None;
        }
        i = i + 1;
    }
    if p.phase != Phase::Done {
        return None;
    }
    Some(Endpoint { name: p.name, methods: p.methods })
}

impl Endpoint {
    /// The request and response ids of the endpoint's methods, in declaration order.
    pub fn method_ids(&self) -> (r: Vec<MethodIds>)
        requires
            2 * self.methods@.len() + 1 <= u32::MAX,
        ensures
            crate::schema::ids_view(r@) == method_ids_spec(
                self@.methods.map_values(|m: MethodView| m.has_response),
            ),
    {
        let mut flags: Vec<bool> = Vec::new();
        let mut i: usize = 0;
        while i < self.methods.len()
            invariant
                i <= self.methods@.len(),
                flags@ == self@.methods.map_values(|m: MethodView| m.has_response).take(i as int),
            decreases self.methods@.len() - i,
        {
            flags.push(self.methods[i].has_response);
            i = i + 1;
            assert(flags@ =~= self@.methods.map_values(|m: MethodView| m.has_response).take(
                i as int,
            ));
        }
        assert(flags@ =~= self@.methods.map_values(|m: MethodView| m.has_response));
        method_ids(flags.as_slice())
    }
}

} // verus!
