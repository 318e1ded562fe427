//! The S-expression layer of the `.kicad_sch` format: tokens, trees, and
//! the queries that find tagged children in them.

use vstd::prelude::*;
use crate::text::{append_chars, exec_is_white_space, is_white_space, str_eq};

verus! {

// ────────────────────────────────────────────
// Tokens
// ────────────────────────────────────────────

pub enum Token {
    Open,
    Close,
    Atom(String),
}

pub enum TokenView {
    Open,
    Close,
    Atom(Seq<char>),
}

impl View for Token {
    type V = TokenView;

    open spec fn view(&self) -> TokenView {
        match self {
            Token::Open => TokenView::Open,
            Token::Close => TokenView::Close,
            Token::Atom(s) => TokenView::Atom(s@),
        }
    }
}

pub open spec fn token_views(v: Seq<Token>) -> Seq<TokenView> {
    v.map_values(|t: Token| t@)
}

/// The whitespace that separates tokens.
pub open spec fn is_separator(c: char) -> bool {
    c == ' ' || c == '\t' || c == '\n' || c == '\r'
}

/// A quoted atom whose opening `"` stands just before `i`: its text, with
/// each `\` taking the next character literally, and the position after the
/// closing `"` (or the end of the input).
pub open spec fn quoted(s: Seq<char>, i: int) -> (Seq<char>, int)
    decreases s.len() - i,
{
    if i < 0 || i >= s.len() {
        (Seq::empty(), s.len() as int)
    } else if s[i] == '\\' {
        if i + 1 >= s.len() {
            (Seq::empty(), s.len() as int)
        } else {
            let (t, j) = quoted(s, i + 2);
            (seq![s[i + 1]] + t, j)
        }
    } else if s[i] == '"' {
        (Seq::empty(), i + 1)
    } else {
        let (t, j) = quoted(s, i + 1);
        (seq![s[i]] + t, j)
    }
}

pub proof fn lemma_quoted_end(s: Seq<char>, i: int)
    requires
        0 <= i,
    ensures
        i < quoted(s, i).1 || quoted(s, i).1 == s.len(),
        quoted(s, i).1 <= s.len(),
        i <= s.len() ==> i <= quoted(s, i).1,
    decreases s.len() - i,
{
    if i < s.len() {
        if s[i] == '\\' {
            if i + 1 < s.len() {
                lemma_quoted_end(s, i + 2);
            }
        } else if s[i] != '"' {
            lemma_quoted_end(s, i + 1);
        }
    }
}

/// Where a bare atom that starts at `i` ends: at the first `(`, `)` or
/// white space, or the end of the input.
pub open spec fn bare_end(s: Seq<char>, i: int) -> int
    decreases s.len() - i,
{
    if i < 0 || i >= s.len() {
        s.len() as int
    } else if s[i] == '(' || s[i] == ')' || is_white_space(s[i]) {
        i
    } else {
        bare_end(s, i + 1)
    }
}

pub proof fn lemma_bare_end(s: Seq<char>, i: int)
    requires
        0 <= i <= s.len(),
    ensures
        i <= bare_end(s, i) <= s.len(),
        forall|k: int|
            i <= k < bare_end(s, i) ==> !(s[k] == '(' || s[k] == ')' || is_white_space(s[k])),
        bare_end(s, i) < s.len() ==> (s[bare_end(s, i)] == '(' || s[bare_end(s, i)] == ')'
            || is_white_space(s[bare_end(s, i)])),
    decreases s.len() - i,
{
    if i < s.len() && !(s[i] == '(' || s[i] == ')' || is_white_space(s[i])) {
        lemma_bare_end(s, i + 1);
    }
}

/// The tokens of `s` from position `i`: `(`, `)`, quoted atoms, and bare
/// atoms, with spaces, tabs and line breaks between them skipped.
/// `None` where the reading would never end: a white space character other
/// than those four, outside quotes, starts no token and is never passed.
pub open spec fn tokens_from(s: Seq<char>, i: int) -> Option<Seq<TokenView>>
    decreases s.len() - i,
{
    if i < 0 || i >= s.len() {
        Some(Seq::empty())
    } else {
        let c = s[i];
        if c == '(' {
            match tokens_from(s, i + 1) {
                Some(rest) => Some(seq![TokenView::Open] + rest),
                None => None,
            }
        } else if c == ')' {
            match tokens_from(s, i + 1) {
                Some(rest) => Some(seq![TokenView::Close] + rest),
                None => None,
            }
        } else if c == '"' {
            let (t, j) = quoted(s, i + 1);
            proof {
                lemma_quoted_end(s, i + 1);
            }
            match tokens_from(s, j) {
                Some(rest) => Some(seq![TokenView::Atom(t)] + rest),
                None => None,
            }
        } else if is_separator(c) {
            tokens_from(s, i + 1)
        } else {
            let j = bare_end(s, i);
            proof {
                lemma_bare_end(s, i);
            }
            if j == i {
                None
            } else {
                match tokens_from(s, j) {
                    Some(rest) => Some(seq![TokenView::Atom(s.subrange(i, j))] + rest),
                    None => None,
                }
            }
        }
    }
}

/// The tokens of a whole text.
pub open spec fn tokens_of(s: Seq<char>) -> Option<Seq<TokenView>> {
    tokens_from(s, 0)
}

/// Reads a quoted atom whose opening `"` stands just before `start`.
fn read_quoted(s: &Vec<char>, start: usize) -> (r: (String, usize))
    requires
        start <= s.len(),
    ensures
        (r.0@, r.1 as int) == quoted(s@, start as int),
{
    let mut out = String::new();
    let mut k = start;
    let n = s.len();
    while k < n && s[k] != '"'
        invariant
            start <= k <= n == s.len(),
            quoted(s@, start as int) == (out@ + quoted(s@, k as int).0, quoted(s@, k as int).1),
        decreases n - k,
    {
        if s[k] == '\\' {
            if k + 1 >= n {
                k = n;
            } else {
                let ghost q = quoted(s@, k + 2);
                let ghost before = out@;
                append_chars(&mut out, s, k + 1, k + 2);
                assert(s@.subrange(k + 1, k + 2) =~= seq![s@[k + 1]]);
                assert(before + (seq![s@[k + 1]] + q.0) =~= out@ + q.0);
                k = k + 2;
            }
        } else {
            let ghost q = quoted(s@, k + 1);
            let ghost before = out@;
            append_chars(&mut out, s, k, k + 1);
            assert(s@.subrange(k as int, k + 1) =~= seq![s@[k as int]]);
            assert(before + (seq![s@[k as int]] + q.0) =~= out@ + q.0);
            k = k + 1;
        }
    }
    if k < n {
        k = k + 1;
    }
    assert(out@ + Seq::<char>::empty() =~= out@);
    (out, k)
}

/// The end of a bare atom that starts at `start`.
fn find_bare_end(s: &Vec<char>, start: usize) -> (j: usize)
    requires
        start <= s.len(),
    ensures
        j == bare_end(s@, start as int),
{
    let mut j = start;
    let n = s.len();
    while j < n && !(s[j] == '(' || s[j] == ')' || exec_is_white_space(s[j]))
        invariant
            start <= j <= n == s.len(),
            bare_end(s@, start as int) == bare_end(s@, j as int),
        decreases n - j,
    {
        j += 1;
    }
    j
}

/// Splits `s` into tokens.
pub fn tokenize(s: &Vec<char>) -> (r: Vec<Token>)
    requires
        tokens_of(s@) is Some,
    ensures
        token_views(r@) == tokens_of(s@).unwrap(),
{
    let mut tokens: Vec<Token> = Vec::new();
    let mut i: usize = 0;
    let n = s.len();
    while i < n
        invariant
            i <= n == s.len(),
            tokens_from(s@, i as int) is Some,
            tokens_of(s@) == Some(token_views(tokens@) + tokens_from(s@, i as int).unwrap()),
        decreases n - i,
    {
        let ghost before = token_views(tokens@);
        let c = s[i];
        if c == '(' {
            tokens.push(Token::Open);
            assert(token_views(tokens@) =~= before.push(TokenView::Open));
            proof {
                lemma_extend(before, TokenView::Open, tokens_from(s@, i + 1).unwrap());
            }
            i += 1;
        } else if c == ')' {
            tokens.push(Token::Close);
            assert(token_views(tokens@) =~= before.push(TokenView::Close));
            proof {
                lemma_extend(before, TokenView::Close, tokens_from(s@, i + 1).unwrap());
            }
            i += 1;
        } else if c == '"' {
            proof {
                lemma_quoted_end(s@, i + 1);
            }
            let (text, j) = read_quoted(s, i + 1);
            let ghost tv = TokenView::Atom(text@);
            tokens.push(Token::Atom(text));
            assert(token_views(tokens@) =~= before.push(tv));
            proof {
                lemma_extend(before, tv, tokens_from(s@, j as int).unwrap());
            }
            i = j;
        } else if c == ' ' || c == '\t' || c == '\n' || c == '\r' {
            i += 1;
        } else {
            proof {
                lemma_bare_end(s@, i as int);
            }
            let j = find_bare_end(s, i);
            let mut text = String::new();
            append_chars(&mut text, s, i, j);
            let ghost tv = TokenView::Atom(text@);
            tokens.push(Token::Atom(text));
            assert(token_views(tokens@) =~= before.push(tv));
            proof {
                lemma_extend(before, tv, tokens_from(s@, j as int).unwrap());
            }
            i = j;
        }
    }
    assert(token_views(tokens@) + Seq::<TokenView>::empty() =~= token_views(tokens@));
    tokens
}

proof fn lemma_extend<A>(before: Seq<A>, x: A, rest: Seq<A>)
    ensures
        before + (seq![x] + rest) == before.push(x) + rest,
{
    assert(before + (seq![x] + rest) =~= before.push(x) + rest);
}

/// Whether `s` can be split into tokens (see `tokens_from`).
pub fn can_tokenize(s: &Vec<char>) -> (r: bool)
    ensures
        r == (tokens_of(s@) is Some),
{
    // walk the text as `tokenize` does, remembering only the position
    let mut i: usize = 0;
    let n = s.len();
    while i < n
        invariant
            i <= n == s.len(),
            (tokens_of(s@) is Some) == (tokens_from(s@, i as int) is Some),
        decreases n - i,
    {
        let c = s[i];
        if c == '(' || c == ')' || c == ' ' || c == '\t' || c == '\n' || c == '\r' {
            i += 1;
        } else if c == '"' {
            proof {
                lemma_quoted_end(s@, i + 1);
            }
            let (_text, j) = read_quoted(s, i + 1);
            i = j;
        } else {
            proof {
                lemma_bare_end(s@, i as int);
            }
            let j = find_bare_end(s, i);
            if j == i {
                return false;
            }
            i = j;
        }
    }
    true
}


// ────────────────────────────────────────────
// Trees
// ────────────────────────────────────────────

pub enum SExpr {
    Atom(String),
    List(Vec<SExpr>),
}

pub enum SExprView {
    Atom(Seq<char>),
    List(Seq<SExprView>),
}

impl SExpr {
    /// The tree as mathematical values.
    pub open spec fn model(&self) -> SExprView
        decreases self,
    {
        match self {
            SExpr::Atom(s) => SExprView::Atom(s@),
            SExpr::List(v) => SExprView::List(
                Seq::new(
                    v@.len(),
                    |i: int|
                        {
                            if 0 <= i < v@.len() {
                                proof {
                                    vstd::std_specs::vec::axiom_vec_index_decreases(*v, i);
                                }
                                v@[i].model()
                            } else {
                                SExprView::Atom(Seq::empty())
                            }
                        },
                ),
            ),
        }
    }
}

pub open spec fn models(v: Seq<SExpr>) -> Seq<SExprView> {
    v.map_values(|e: SExpr| e.model())
}

pub proof fn lemma_list_model(v: Vec<SExpr>)
    ensures
        SExpr::List(v).model() == SExprView::List(models(v@)),
{
    let e = SExpr::List(v);
    let m = e.model();
    if let SExprView::List(l) = m {
        assert(l.len() == v@.len());
        assert forall|i: int| 0 <= i < l.len() implies l[i] == models(v@)[i] by {
            assert(l[i] == v@[i].model());
        }
        assert(l =~= models(v@));
    }
}

/// Parses tokens into a sequence of trees, as far as the first unmatched
/// `)`: the trees, and how many tokens were used (the `)` included).
pub open spec fn parse_seq(t: Seq<TokenView>) -> (Seq<SExprView>, int)
    decreases t.len(),
{
    if t.len() == 0 {
        (Seq::empty(), 0)
    } else {
        match t[0] {
            TokenView::Close => (Seq::empty(), 1),
            TokenView::Atom(a) => {
                let (rest, n) = parse_seq(t.skip(1));
                (seq![SExprView::Atom(a)] + rest, n + 1)
            },
            TokenView::Open => {
                let (ch, m) = parse_seq(t.skip(1));
                let m = if 0 <= m && m <= t.len() - 1 { m } else { 0 };
                let (rest, n) = parse_seq(t.skip(1 + m));
                (seq![SExprView::List(ch)] + rest, 1 + m + n)
            },
        }
    }
}

pub proof fn lemma_parse_seq_len(t: Seq<TokenView>)
    ensures
        0 <= parse_seq(t).1 <= t.len(),
    decreases t.len(),
{
    if t.len() > 0 {
        match t[0] {
            TokenView::Close => {},
            TokenView::Atom(a) => {
                lemma_parse_seq_len(t.skip(1));
            },
            TokenView::Open => {
                lemma_parse_seq_len(t.skip(1));
                let m = parse_seq(t.skip(1)).1;
                lemma_parse_seq_len(t.skip(1 + m));
            },
        }
    }
}

/// Parses `tokens[start..]` into trees, as far as the first unmatched `)`.
pub fn parse_sexprs(tokens: &Vec<Token>, start: usize) -> (r: (Vec<SExpr>, usize))
    requires
        start <= tokens.len(),
    ensures
        models(r.0@) == parse_seq(token_views(tokens@).skip(start as int)).0,
        r.1 as int == parse_seq(token_views(tokens@).skip(start as int)).1,
    decreases tokens.len() - start,
{
    let ghost t = token_views(tokens@);
    let mut result: Vec<SExpr> = Vec::new();
    let mut i = start;
    let n = tokens.len();
    while i < n
        invariant
            start <= i <= n == tokens.len(),
            t == token_views(tokens@),
            parse_seq(t.skip(start as int)) == (
                models(result@) + parse_seq(t.skip(i as int)).0,
                (i - start) + parse_seq(t.skip(i as int)).1,
            ),
        decreases n - i,
    {
        let ghost ti = t.skip(i as int);
        assert(ti[0] == tokens@[i as int]@);
        assert(ti.skip(1) =~= t.skip(i + 1));
        let ghost before = models(result@);
        match &tokens[i] {
            Token::Open => {
                let (children, consumed) = parse_sexprs(tokens, i + 1);
                proof {
                    lemma_parse_seq_len(t.skip(i + 1));
                    assert(ti.skip(1 + consumed) =~= t.skip(i + 1 + consumed));
                }
                let ghost ch = models(children@);
                let e = SExpr::List(children);
                proof {
                    lemma_list_model(children);
                }
                result.push(e);
                assert(models(result@) =~= before.push(SExprView::List(ch)));
                proof {
                    let rest = parse_seq(t.skip(i + 1 + consumed)).0;
                    assert(before + (seq![SExprView::List(ch)] + rest) =~= models(result@) + rest);
                }
                i += consumed + 1;
            },
            Token::Close => {
                assert(models(result@) + Seq::<SExprView>::empty() =~= models(result@));
                return (result, i - start + 1);
            },
            Token::Atom(s) => {
                let ghost a = s@;
                result.push(SExpr::Atom(s.clone()));
                assert(models(result@) =~= before.push(SExprView::Atom(a)));
                proof {
                    let rest = parse_seq(t.skip(i + 1)).0;
                    assert(before + (seq![SExprView::Atom(a)] + rest) =~= models(result@) + rest);
                }
                i += 1;
            },
        }
    }
    assert(t.skip(i as int) =~= Seq::<TokenView>::empty());
    assert(models(result@) + Seq::<SExprView>::empty() =~= models(result@));
    (result, i - start)
}


// ────────────────────────────────────────────
// Queries on trees
// ────────────────────────────────────────────

pub open spec fn atom_text(e: SExprView) -> Option<Seq<char>> {
    match e {
        SExprView::Atom(a) => Some(a),
        SExprView::List(_) => None,
    }
}

pub open spec fn children_of(e: SExprView) -> Option<Seq<SExprView>> {
    match e {
        SExprView::List(l) => Some(l),
        SExprView::Atom(_) => None,
    }
}

/// `e` is a list whose first element is the atom `tag`.
pub open spec fn has_tag(e: SExprView, tag: Seq<char>) -> bool {
    match e {
        SExprView::List(l) => l.len() > 0 && atom_text(l[0]) == Some(tag),
        SExprView::Atom(_) => false,
    }
}

/// The index of the first element of `l` tagged `tag`, or `l.len()`.
pub open spec fn first_tagged(l: Seq<SExprView>, tag: Seq<char>) -> int
    decreases l.len(),
{
    if l.len() == 0 {
        0
    } else if has_tag(l[0], tag) {
        0
    } else {
        1 + first_tagged(l.skip(1), tag)
    }
}

pub proof fn lemma_first_tagged(l: Seq<SExprView>, tag: Seq<char>)
    ensures
        0 <= first_tagged(l, tag) <= l.len(),
        forall|j: int| 0 <= j < first_tagged(l, tag) ==> !has_tag(#[trigger] l[j], tag),
        first_tagged(l, tag) < l.len() ==> has_tag(l[first_tagged(l, tag)], tag),
    decreases l.len(),
{
    if l.len() > 0 && !has_tag(l[0], tag) {
        lemma_first_tagged(l.skip(1), tag);
        assert forall|j: int| 0 <= j < first_tagged(l, tag) implies !has_tag(#[trigger] l[j], tag) by {
            if j > 0 {
                assert(l[j] == l.skip(1)[j - 1]);
            }
        }
    }
}

/// The first element of `l` tagged `tag`.
pub open spec fn find_tagged(l: Seq<SExprView>, tag: Seq<char>) -> Option<SExprView> {
    if first_tagged(l, tag) < l.len() {
        Some(l[first_tagged(l, tag)])
    } else {
        None
    }
}

/// The element at `k` of a list `e`, if it is an atom.
pub open spec fn atom_at(e: SExprView, k: int) -> Option<Seq<char>> {
    match children_of(e) {
        Some(ch) => if 0 <= k < ch.len() { atom_text(ch[k]) } else { None },
        None => None,
    }
}

/// The atom at position `idx + 1` of the first child tagged `tag`: the
/// value of a `(tag value ...)` field.
pub open spec fn field_atom(l: Seq<SExprView>, tag: Seq<char>, idx: int) -> Option<Seq<char>> {
    match find_tagged(l, tag) {
        Some(c) => atom_at(c, idx + 1),
        None => None,
    }
}

pub fn atom(e: &SExpr) -> (r: Option<&String>)
    ensures
        match r {
            Some(a) => atom_text(e.model()) == Some(a@),
            None => atom_text(e.model()) is None,
        },
{
    match e {
        SExpr::Atom(a) => Some(a),
        SExpr::List(_) => None,
    }
}

pub fn children(e: &SExpr) -> (r: Option<&Vec<SExpr>>)
    ensures
        match r {
            Some(v) => children_of(e.model()) == Some(models(v@)),
            None => children_of(e.model()) is None,
        },
{
    match e {
        SExpr::List(v) => {
            proof {
                lemma_list_model(*v);
            }
            Some(v)
        },
        SExpr::Atom(_) => None,
    }
}

pub fn tag_is(e: &SExpr, tag: &str) -> (r: bool)
    ensures
        r == has_tag(e.model(), tag@),
{
    match children(e) {
        Some(v) => {
            if v.len() == 0 {
                false
            } else {
                match atom(&v[0]) {
                    Some(a) => str_eq(a.as_str(), tag),
                    None => false,
                }
            }
        },
        None => false,
    }
}

pub fn find_child<'a>(l: &'a Vec<SExpr>, tag: &str) -> (r: Option<&'a SExpr>)
    ensures
        match r {
            Some(e) => find_tagged(models(l@), tag@) == Some(e.model()),
            None => find_tagged(models(l@), tag@) is None,
        },
{
    let ghost ml = models(l@);
    proof {
        lemma_first_tagged(ml, tag@);
    }
    let mut i: usize = 0;
    while i < l.len()
        invariant
            i <= l.len(),
            ml == models(l@),
            forall|j: int| 0 <= j < i ==> !has_tag(#[trigger] ml[j], tag@),
        decreases l.len() - i,
    {
        if tag_is(&l[i], tag) {
            proof {
                lemma_first_tagged(ml, tag@);
                let f = first_tagged(ml, tag@);
                assert(ml[i as int] == l@[i as int].model());
                if f < i {
                    assert(has_tag(ml[f], tag@));
                }
                if f > i {
                    assert(!has_tag(ml[i as int], tag@));
                }
            }
            return Some(&l[i]);
        }
        i += 1;
    }
    proof {
        let f = first_tagged(ml, tag@);
        if f < ml.len() {
            assert(has_tag(ml[f], tag@));
        }
    }
    None
}

pub fn child_atom<'a>(l: &'a Vec<SExpr>, tag: &str, idx: usize) -> (r: Option<&'a String>)
    requires
        idx < usize::MAX,
    ensures
        match r {
            Some(a) => field_atom(models(l@), tag@, idx as int) == Some(a@),
            None => field_atom(models(l@), tag@, idx as int) is None,
        },
{
    let c = find_child(l, tag)?;
    let ch = children(c)?;
    if idx + 1 < ch.len() {
        atom(&ch[idx + 1])
    } else {
        None
    }
}

} // verus!
