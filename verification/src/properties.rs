//! Properties that relate several operations of the library.

use vstd::prelude::*;
use crate::parser::{
    first_index, lemma_first_index, last_index_of, name_for, names_in_range, nth_number, pct_d,
    pin_format, pin_name_set, resolve_spec, span_len, trim_end_digits, SchematicView,
    find_pin_spec, orientation, transform, whole_degrees, pin_direction_spec, pin_position_spec, symbol_lib, PinView,
    pin_direction_of, wire_vector, SymbolView, lemma_last_index_of, lemma_trim_end_digits,
};
use crate::generator::{bus_placements, layout_spec, opposite};
use crate::tui::{column_text, format_errors, lowercase, matching_suggestions};
use crate::parser::PinOutDir;
use crate::sexpr::{parse_seq, SExprView, TokenView};
use crate::tui::{
    app_wf, cell_errors, default_row, error_if, errors_of, key_step, row_errors, row_prefix,
    rows_convert, Key, KeyOutcome, RowView,
    inch4_to_units, inch8_to_units, next_col_spec, prev_col_spec, row_bus_spec, row_from_saved,
    units_to_inch4, AppView, COLUMNS, INCH_LIMIT,
};
use crate::session::SavedRow;
use crate::text::{
    digits_value, fixed4, fixed4_text, float_body, float_negative, float_number, float_scaled,
    float_value, four_digits, int_text, lemma_digits_value_concat, lemma_first_of_after,
    parse_i32_spec, pow10, digit_char, lemma_pow10_values, NUMBER_LIMIT,
};
use crate::tui::BusSpecView;
use crate::text::{all_digits, contains, dec, is_digit, nat_digits, occurs_at, replace_all};

verus! {

// ────────────────────────────────────────────
// Pin name formats
// ────────────────────────────────────────────

proof fn lemma_nat_digits(n: nat)
    ensures
        nat_digits(n).len() > 0,
        all_digits(nat_digits(n)),
        !nat_digits(n).contains('{'),
        !nat_digits(n).contains('}'),
    decreases n,
{
    if n >= 10 {
        lemma_nat_digits(n / 10);
        let d = nat_digits(n);
        assert forall|i: int| 0 <= i < d.len() implies is_digit(#[trigger] d[i]) by {
            if i < d.len() - 1 {
                assert(d[i] == nat_digits(n / 10)[i]);
            }
        }
        if d.contains('{') {
            let i = choose|i: int| 0 <= i < d.len() && d[i] == '{';
            if i < d.len() - 1 {
                assert(nat_digits(n / 10)[i] == '{');
            }
        }
        if d.contains('}') {
            let i = choose|i: int| 0 <= i < d.len() && d[i] == '}';
            if i < d.len() - 1 {
                assert(nat_digits(n / 10)[i] == '}');
            }
        }
    } else {
        let d = nat_digits(n);
        assert(d.len() == 1);
        if d.contains('{') {
            let i = choose|i: int| 0 <= i < d.len() && d[i] == '{';
            assert(i == 0);
        }
        if d.contains('}') {
            let i = choose|i: int| 0 <= i < d.len() && d[i] == '}';
            assert(i == 0);
        }
    }
}

/// Replacing `%d` in `p + "%d" + q`, where `p` holds no `%d`.
proof fn lemma_replace_after(p: Seq<char>, q: Seq<char>, rep: Seq<char>)
    requires
        !contains(p, pct_d()),
    ensures
        replace_all(p + pct_d() + q, pct_d(), rep) == p + rep + replace_all(q, pct_d(), rep),
    decreases p.len(),
{
    let pat = pct_d();
    let s = p + pat + q;
    if p.len() == 0 {
        assert(s =~= pat + q);
        assert(s.take(2) =~= pat);
        assert(s.skip(2) =~= q);
        assert(p + rep =~= rep);
    } else {
        if p.len() >= 2 {
            assert(s.take(2) =~= p.take(2));
            if p.take(2) == pat {
                assert(p.subrange(0, 2) =~= p.take(2));
                assert(occurs_at(p, 0, pat));
            }
        } else {
            assert(s[1] == '%');
            assert(s.take(2)[1] == '%');
        }
        assert(s.take(2) != pat);
        let p1 = p.skip(1);
        if contains(p1, pat) {
            let i = choose|i: int| occurs_at(p1, i, pat);
            assert(p.subrange(i + 1, i + 1 + pat.len()) =~= p1.subrange(i, i + pat.len()));
            assert(occurs_at(p, i + 1, pat));
        }
        lemma_replace_after(p1, q, rep);
        assert(s.skip(1) =~= p1 + pat + q);
        assert(s =~= seq![s[0]] + s.skip(1));
        assert(p + rep + replace_all(q, pat, rep) =~= seq![s[0]] + (p1 + rep + replace_all(
            q,
            pat,
            rep,
        )));
    }
}

proof fn lemma_trim_digits_suffix(p: Seq<char>, d: Seq<char>)
    requires
        all_digits(d),
        p.len() > 0,
        !is_digit(p.last()),
    ensures
        trim_end_digits(p + d) == p,
    decreases d.len(),
{
    if d.len() == 0 {
        assert(p + d =~= p);
    } else {
        assert((p + d).last() == d.last());
        assert(is_digit(d[d.len() - 1]));
        assert((p + d).drop_last() =~= p + d.drop_last());
        lemma_trim_digits_suffix(p, d.drop_last());
    }
}

proof fn lemma_last_index_after(a: Seq<char>, b: Seq<char>, c: char)
    requires
        a.len() > 0,
        a.last() == c,
        !b.contains(c),
    ensures
        last_index_of(a + b, c) == a.len() - 1,
    decreases b.len(),
{
    if b.len() == 0 {
        assert(a + b =~= a);
    } else {
        assert((a + b).last() == b.last());
        assert(b.contains(b[b.len() - 1]));
        assert((a + b).drop_last() =~= a + b.drop_last());
        if b.drop_last().contains(c) {
            let i = choose|i: int| 0 <= i < b.drop_last().len() && b.drop_last()[i] == c;
            assert(b[i] == c);
        }
        lemma_last_index_after(a, b.drop_last(), c);
    }
}

/// Formats round-trip: the name that a format `p%d` gives for a number
/// `n >= 0` has the format `p%d` again, where `p` is not empty, does not end
/// in a digit and holds no `%d`. So a format offered by `pin_prefixes_for`
/// names pins that `pin_name_to_format` maps back to it.
pub proof fn lemma_plain_format_round_trip(p: Seq<char>, n: int)
    requires
        n >= 0,
        p.len() > 0,
        !is_digit(p.last()),
        !contains(p, pct_d()),
    ensures
        pin_format(name_for(p + pct_d(), n)) == Some(p + pct_d()),
{
    let d = nat_digits(n as nat);
    lemma_nat_digits(n as nat);
    lemma_replace_after(p, Seq::empty(), d);
    assert(p + pct_d() + Seq::<char>::empty() =~= p + pct_d());
    assert(replace_all(Seq::<char>::empty(), pct_d(), d) =~= Seq::<char>::empty());
    let name = p + d;
    assert(name_for(p + pct_d(), n) =~= name);
    assert(name.last() == d.last());
    assert(is_digit(d[d.len() - 1]));
    lemma_trim_digits_suffix(p, d);
}

/// Formats round-trip for numbers in braces: the name that `p{%d}` gives
/// for a number `n >= 0` has the format `p{%d}` again, where `p` holds no
/// `%d`.
pub proof fn lemma_brace_format_round_trip(p: Seq<char>, n: int)
    requires
        n >= 0,
        !contains(p, pct_d()),
    ensures
        pin_format(name_for(p + seq!['{', '%', 'd', '}'], n)) == Some(p + seq!['{', '%', 'd', '}']),
{
    let d = nat_digits(n as nat);
    lemma_nat_digits(n as nat);
    let p1 = p + seq!['{'];
    // p1 holds no %d either
    if contains(p1, pct_d()) {
        let i = choose|i: int| occurs_at(p1, i, pct_d());
        if i + 2 <= p.len() {
            assert(p.subrange(i, i + 2) =~= p1.subrange(i, i + 2));
            assert(occurs_at(p, i, pct_d()));
        } else {
            assert(p1.subrange(i, i + 2)[1] == p1[i + 1]);
            assert(p1[p.len() as int] == '{');
        }
    }
    lemma_replace_after(p1, seq!['}'], d);
    assert(p1 + pct_d() + seq!['}'] =~= p + seq!['{', '%', 'd', '}']);
    assert(replace_all(seq!['}'], pct_d(), d) =~= seq!['}']);
    let name = p1 + d + seq!['}'];
    assert(name_for(p + seq!['{', '%', 'd', '}'], n) =~= name);
    // the last '{' is the one after p
    assert(!(d + seq!['}']).contains('{')) by {
        if (d + seq!['}']).contains('{') {
            let i = choose|i: int| 0 <= i < (d + seq!['}']).len() && (d + seq!['}'])[i] == '{';
            if i < d.len() {
                assert(d[i] == '{');
                assert(d.contains('{'));
            }
        }
    }
    assert(name =~= p1 + (d + seq!['}']));
    lemma_last_index_after(p1, d + seq!['}'], '{');
    let k = p.len() as int;
    assert(name.subrange(k + 1, name.len() - 1) =~= d);
    assert(name.take(k) =~= p);
}


proof fn lemma_no_pct_d(p: Seq<char>)
    requires
        !p.contains('%'),
    ensures
        !contains(p, pct_d()),
{
    if contains(p, pct_d()) {
        let i = choose|i: int| occurs_at(p, i, pct_d());
        assert(p.subrange(i, i + 2)[0] == p[i]);
        assert(p.contains(p[i]));
    }
}

/// The digits of a pin name that its format replaces by `%d`.
pub open spec fn format_digits(n: Seq<char>) -> Seq<char> {
    if n.len() > 0 && n.last() == '}' {
        n.subrange(last_index_of(n, '{') + 1, n.len() - 1)
    } else {
        n.skip(trim_end_digits(n).len() as int)
    }
}

/// A format gives back the pin name it was made from: where `pin_format`
/// maps a name without `%` to a format, and the digits it replaced are how
/// `k` is written, the name that the format gives for `k` (what
/// `first_pin_name` returns) is that name.
pub proof fn lemma_format_gives_name_back(n: Seq<char>, k: int)
    requires
        pin_format(n) is Some,
        !n.contains('%'),
        format_digits(n) == dec(k),
    ensures
        name_for(pin_format(n).unwrap(), k) == n,
{
    let rep = dec(k);
    if n.len() > 0 && n.last() == '}' {
        lemma_last_index_of(n, '{');
        let kb = last_index_of(n, '{');
        let p1 = n.take(kb + 1);
        if p1.contains('%') {
            let i = choose|i: int| 0 <= i < p1.len() && p1[i] == '%';
            assert(n[i] == '%');
            assert(n.contains(n[i]));
        }
        lemma_no_pct_d(p1);
        lemma_replace_after(p1, seq!['}'], rep);
        assert(n.take(kb) + seq!['{', '%', 'd', '}'] =~= p1 + pct_d() + seq!['}']);
        assert(replace_all(seq!['}'], pct_d(), rep) == seq!['}']);
        assert(n =~= p1 + n.subrange(kb + 1, n.len() - 1) + seq!['}']);
    } else {
        let t = trim_end_digits(n);
        lemma_trim_end_digits(n);
        if t.contains('%') {
            let i = choose|i: int| 0 <= i < t.len() && t[i] == '%';
            assert(n[i] == '%');
            assert(n.contains(n[i]));
        }
        lemma_no_pct_d(t);
        lemma_replace_after(t, Seq::<char>::empty(), rep);
        assert(t + pct_d() + Seq::<char>::empty() =~= t + pct_d());
        assert(replace_all(Seq::<char>::empty(), pct_d(), rep) == Seq::<char>::empty());
        assert(n =~= t + n.skip(t.len() as int));
        assert(t + rep + Seq::<char>::empty() =~= t + rep);
    }
}


// ────────────────────────────────────────────
// Trees written back as tokens
// ────────────────────────────────────────────

/// The tokens that write a sequence of trees: an atom is itself, a list is
/// `(`, its children and `)`.
pub open spec fn flatten(es: Seq<SExprView>) -> Seq<TokenView>
    decreases es,
{
    if es.len() == 0 {
        Seq::empty()
    } else {
        let head = match es[0] {
            SExprView::Atom(a) => seq![TokenView::Atom(a)],
            SExprView::List(cs) => seq![TokenView::Open] + flatten(cs) + seq![TokenView::Close],
        };
        head + flatten(es.skip(1))
    }
}

/// How a token changes the nesting depth.
pub open spec fn depth_step(t: TokenView) -> int {
    match t {
        TokenView::Open => 1,
        TokenView::Close => -1,
        TokenView::Atom(_) => 0,
    }
}

/// Lists opened minus lists closed.
pub open spec fn depth(t: Seq<TokenView>) -> int
    decreases t.len(),
{
    if t.len() == 0 {
        0
    } else {
        depth(t.drop_last()) + depth_step(t.last())
    }
}

/// No prefix closes more lists than it opened, and the whole closes all
/// it opened.
pub open spec fn balanced(t: Seq<TokenView>) -> bool {
    depth(t) == 0 && forall|i: int| 0 <= i <= t.len() ==> depth(#[trigger] t.take(i)) >= 0
}

proof fn lemma_depth_concat(a: Seq<TokenView>, b: Seq<TokenView>)
    ensures
        depth(a + b) == depth(a) + depth(b),
    decreases b.len(),
{
    if b.len() == 0 {
        assert(a + b =~= a);
    } else {
        lemma_depth_concat(a, b.drop_last());
        assert((a + b).drop_last() =~= a + b.drop_last());
        assert((a + b).last() == b.last());
    }
}

/// The first `k >= i` where the prefix through `k` is back at depth 0, or
/// `u.len()`.
spec fn first_zero(u: Seq<TokenView>, i: int) -> int
    decreases u.len() - i,
{
    if i >= u.len() {
        u.len() as int
    } else if depth(u.take(i + 1)) == 0 {
        i
    } else {
        first_zero(u, i + 1)
    }
}

proof fn lemma_first_zero(u: Seq<TokenView>, i: int)
    requires
        0 <= i <= u.len(),
    ensures
        i <= first_zero(u, i) <= u.len(),
        forall|k: int| i <= k < first_zero(u, i) ==> depth(#[trigger] u.take(k + 1)) != 0,
        first_zero(u, i) < u.len() ==> depth(u.take(first_zero(u, i) + 1)) == 0,
    decreases u.len() - i,
{
    if i < u.len() && depth(u.take(i + 1)) != 0 {
        lemma_first_zero(u, i + 1);
    }
}

proof fn lemma_depth_first(u: Seq<TokenView>)
    requires
        u.len() > 0,
    ensures
        depth(u.take(1)) == depth_step(u[0]),
{
    let e = u.take(1).drop_last();
    assert(e.len() == 0);
    assert(depth(e) == 0);
    assert(u.take(1).last() == u[0]);
}

/// What follows a prefix at depth 0 of balanced tokens is balanced.
proof fn lemma_balanced_after(u: Seq<TokenView>, j: int)
    requires
        balanced(u),
        0 <= j <= u.len(),
        depth(u.take(j)) == 0,
    ensures
        balanced(u.skip(j)),
{
    let after = u.skip(j);
    assert forall|i: int| 0 <= i <= after.len() implies depth(#[trigger] after.take(i)) >= 0 by {
        assert(u.take(j + i) =~= u.take(j) + after.take(i));
        lemma_depth_concat(u.take(j), after.take(i));
        assert(depth(u.take(j + i)) >= 0);
    }
    assert(u =~= u.take(j) + after);
    lemma_depth_concat(u.take(j), after);
    assert(after.take(after.len() as int) =~= after);
    assert(u.take(u.len() as int) =~= u);
}

/// Balanced tokens, followed by nothing or by a `)`, parse into trees that
/// write them back; the `)` is used too.
proof fn lemma_parse_balanced(u: Seq<TokenView>, c: Seq<TokenView>)
    requires
        balanced(u),
        c.len() == 0 || c[0] is Close,
    ensures
        parse_seq(u + c).1 == u.len() + (if c.len() > 0 {
            1int
        } else {
            0int
        }),
        flatten(parse_seq(u + c).0) == u,
    decreases u.len(), 1int,
{
    let t = u + c;
    if u.len() == 0 {
        assert(t =~= c);
        assert(flatten(Seq::<SExprView>::empty()) == Seq::<TokenView>::empty());
        return;
    }
    lemma_depth_first(u);
    assert(depth(u.take(1)) >= 0);
    match u[0] {
        TokenView::Close => {},
        TokenView::Atom(a) => {
            lemma_parse_atom_first(u, c);
        },
        TokenView::Open => {
            lemma_parse_list_first(u, c);
        },
    }
}

proof fn lemma_parse_atom_first(u: Seq<TokenView>, c: Seq<TokenView>)
    requires
        balanced(u),
        c.len() == 0 || c[0] is Close,
        u.len() > 0,
        u[0] is Atom,
    ensures
        parse_seq(u + c).1 == u.len() + (if c.len() > 0 {
            1int
        } else {
            0int
        }),
        flatten(parse_seq(u + c).0) == u,
    decreases u.len(), 0int,
{
    let t = u + c;
    let a = u[0]->Atom_0;
    assert(t[0] == u[0]);
    lemma_depth_first(u);
    lemma_balanced_after(u, 1);
    let rest = u.skip(1);
    lemma_parse_balanced(rest, c);
    assert(t.skip(1) =~= rest + c);
    let es = parse_seq(t).0;
    let es1 = parse_seq(t.skip(1)).0;
    assert(es == seq![SExprView::Atom(a)] + es1);
    assert(es.skip(1) =~= es1);
    assert(es[0] == SExprView::Atom(a));
    assert(flatten(es) == seq![TokenView::Atom(a)] + flatten(es1));
    assert(u =~= seq![TokenView::Atom(a)] + rest);
}

/// The first list of balanced tokens that start with `(`: it closes at
/// `first_zero(u, 1)`, and what it holds is balanced.
proof fn lemma_first_list(u: Seq<TokenView>)
    requires
        balanced(u),
        u.len() > 0,
        u[0] is Open,
    ensures
        1 <= first_zero(u, 1) < u.len(),
        u[first_zero(u, 1)] is Close,
        depth(u.take(first_zero(u, 1) + 1)) == 0,
        balanced(u.subrange(1, first_zero(u, 1))),
{
    lemma_depth_first(u);
    assert(u.take(u.len() as int) =~= u);
    lemma_first_zero(u, 1);
    let j = first_zero(u, 1);
    if j == u.len() {
        assert(depth(u.take(u.len() - 1 + 1)) != 0);
    }
    assert forall|k: int| 0 <= k < j implies depth(#[trigger] u.take(k + 1)) >= 1 by {
        if k >= 1 {
            assert(depth(u.take(k + 1)) != 0);
            assert(depth(u.take(k + 1)) >= 0);
        }
    }
    assert(u.take(j + 1).drop_last() =~= u.take(j));
    assert(u.take(j + 1).last() == u[j]);
    assert(depth(u.take(j)) >= 1) by {
        assert(depth(u.take((j - 1) + 1)) >= 1);
    }
    let inner = u.subrange(1, j);
    assert forall|i: int| 0 <= i <= inner.len() implies depth(#[trigger] inner.take(i)) >= 0 by {
        assert(u.take(1 + i) =~= u.take(1) + inner.take(i));
        lemma_depth_concat(u.take(1), inner.take(i));
        if i >= 1 {
            assert(depth(u.take((i) + 1)) >= 1);
        }
    }
    assert(u.take(j) =~= u.take(1) + inner);
    lemma_depth_concat(u.take(1), inner);
    assert(inner.take(inner.len() as int) =~= inner);
}

proof fn lemma_parse_list_first(u: Seq<TokenView>, c: Seq<TokenView>)
    requires
        balanced(u),
        c.len() == 0 || c[0] is Close,
        u.len() > 0,
        u[0] is Open,
    ensures
        parse_seq(u + c).1 == u.len() + (if c.len() > 0 {
            1int
        } else {
            0int
        }),
        flatten(parse_seq(u + c).0) == u,
    decreases u.len(), 0int,
{
    let t = u + c;
    assert(t[0] == u[0]);
    lemma_first_list(u);
    let j = first_zero(u, 1);
    let inner = u.subrange(1, j);
    lemma_balanced_after(u, j + 1);
    let after = u.skip(j + 1);
    let c1 = seq![TokenView::Close] + (after + c);
    lemma_parse_balanced(inner, c1);
    assert(t.skip(1) =~= inner + c1);
    lemma_parse_balanced(after, c);
    assert(t.skip(1 + j) =~= after + c);
    let ch = parse_seq(t.skip(1)).0;
    let es2 = parse_seq(t.skip(1 + j)).0;
    let es = parse_seq(t).0;
    assert(es == seq![SExprView::List(ch)] + es2);
    assert(es.skip(1) =~= es2);
    assert(es[0] == SExprView::List(ch));
    assert(flatten(es) == seq![TokenView::Open] + flatten(ch) + seq![TokenView::Close] + flatten(
        es2,
    ));
    assert(u =~= seq![TokenView::Open] + inner + seq![TokenView::Close] + after);
}

/// Parsing balanced tokens uses all of them, and writing the trees back
/// gives the tokens again.
pub proof fn lemma_parse_balanced_round_trip(t: Seq<TokenView>)
    requires
        balanced(t),
    ensures
        parse_seq(t).1 == t.len(),
        flatten(parse_seq(t).0) == t,
{
    lemma_parse_balanced(t, Seq::<TokenView>::empty());
    assert(t + Seq::<TokenView>::empty() =~= t);
}


// ────────────────────────────────────────────
// Resolving ranges
// ────────────────────────────────────────────

proof fn lemma_names_reversed(f: Seq<char>, a: int, b: int)
    ensures
        names_in_range(f, b, a) == names_in_range(f, a, b).reverse(),
{
    let n1 = names_in_range(f, a, b);
    let n2 = names_in_range(f, b, a);
    assert(span_len(a, b) == span_len(b, a));
    assert forall|i: int| 0 <= i < n2.len() implies n2[i] == n1.reverse()[i] by {
        let len = span_len(a, b);
        assert(nth_number(b, a, i) == nth_number(a, b, len - 1 - i));
    }
    assert(n2 =~= n1.reverse());
}

/// Resolving runs either way round: the pins from `b` down to `a` are those
/// from `a` up to `b` in reverse order, and one resolves exactly when the
/// other does.
pub proof fn lemma_resolve_reverse(v: SchematicView, r: Seq<char>, f: Seq<char>, a: int, b: int)
    ensures
        resolve_spec(v, r, f, a, b) is Ok <==> resolve_spec(v, r, f, b, a) is Ok,
        resolve_spec(v, r, f, a, b) matches Ok(x) ==> resolve_spec(v, r, f, b, a) == Ok::<
            Seq<Seq<char>>,
            Seq<char>,
        >(x.reverse()),
{
    lemma_names_reversed(f, a, b);
    let all = pin_name_set(v, r);
    let n1 = names_in_range(f, a, b);
    let n2 = names_in_range(f, b, a);
    let missing = |n: Seq<char>| !all.contains(n);
    lemma_first_index(n1, missing);
    lemma_first_index(n2, missing);
    let k1 = first_index(n1, missing);
    let k2 = first_index(n2, missing);
    if k1 < n1.len() {
        let j = n1.len() - 1 - k1;
        assert(n2[j] == n1[k1]);
        if k2 >= n2.len() {
            assert(!missing(n2[j]));
        }
    }
    if k2 < n2.len() {
        let j = n2.len() - 1 - k2;
        assert(n2[k2] == n1[j]);
        if k1 >= n1.len() {
            assert(!missing(n1[j]));
        }
    }
}


/// A pin named among the symbol's pins is found, so it has a position and a
/// direction.
pub proof fn lemma_named_pin_is_placed(v: SchematicView, r: Seq<char>, n: Seq<char>)
    requires
        pin_name_set(v, r).contains(n),
    ensures
        pin_position_spec(v, r, n) is Some,
        pin_direction_spec(v, r, n) is Some,
{
    let l = symbol_lib(v, r).unwrap();
    let names = l.pins.map_values(|p: PinView| p.name);
    assert(names.contains(n));
    let j = choose|j: int| 0 <= j < names.len() && names[j] == n;
    let pred = |p: PinView| p.name == n;
    lemma_first_index(l.pins, pred);
    assert(pred(l.pins[j]));
    assert(first_index(l.pins, pred) <= j);
    assert(find_pin_spec(v, r, n) is Some);
}

/// Once the pin names of a range resolve, each of them has a position and
/// a direction on the sheet.
pub proof fn lemma_resolved_pins_are_placed(v: SchematicView, r: Seq<char>, f: Seq<char>, a: int, b: int)
    requires
        resolve_spec(v, r, f, a, b) is Ok,
    ensures
        forall|i: int|
            0 <= i < span_len(a, b) ==> {
                let n = #[trigger] names_in_range(f, a, b)[i];
                pin_position_spec(v, r, n) is Some && pin_direction_spec(v, r, n) is Some
            },
{
    let all = pin_name_set(v, r);
    let names = names_in_range(f, a, b);
    let missing = |n: Seq<char>| !all.contains(n);
    lemma_first_index(names, missing);
    assert forall|i: int| 0 <= i < span_len(a, b) implies {
        let n = #[trigger] names_in_range(f, a, b)[i];
        pin_position_spec(v, r, n) is Some && pin_direction_spec(v, r, n) is Some
    } by {
        assert(!missing(names[i]));
        lemma_named_pin_is_placed(v, r, names[i]);
    }
}

/// Generating a bus group fails only where resolving its pin names fails,
/// and with the same error: a direction or a position is never missing.
pub proof fn lemma_placement_fails_only_on_resolve(v: SchematicView, b: BusSpecView)
    ensures
        bus_placements(v, b) matches Err(e) ==> resolve_spec(
            v,
            b.reference,
            b.pin_prefix,
            b.start,
            b.end,
        ) == Err::<Seq<Seq<char>>, Seq<char>>(e),
{
    if resolve_spec(v, b.reference, b.pin_prefix, b.start, b.end) is Ok {
        lemma_resolved_pins_are_placed(v, b.reference, b.pin_prefix, b.start, b.end);
        let names = names_in_range(b.pin_prefix, b.start, b.end);
        assert(pin_direction_spec(v, b.reference, names[0]) is Some);
        let pred = |n: Seq<char>| pin_position_spec(v, b.reference, n) is None;
        lemma_first_index(names, pred);
        let k = first_index(names, pred);
        if k < names.len() {
            assert(pred(names[k]));
        }
    }
}


// ────────────────────────────────────────────
// The symbol transform
// ────────────────────────────────────────────

/// Half a turn, in ten-thousandths of a degree.
pub open spec fn half_turn() -> int {
    1800000
}

proof fn lemma_orientation_half_turn(a: int)
    requires
        0 <= a <= 20_000_000_000_000,
    ensures
        orientation(a + half_turn()) == (orientation(a) + 180) % 360,
{
    assert((a + 1800000) / 10000 == a / 10000 + 180);
    assert(whole_degrees(a + half_turn()) == whole_degrees(a) + 180);
}

/// Mirroring a symbol about both axes is turning it half round, for a
/// symbol at a quarter-turn angle.
pub proof fn lemma_mirror_both_is_half_turn(x: int, y: int, a: int)
    requires
        0 <= a <= 20_000_000_000_000,
        orientation(a) % 90 == 0,
    ensures
        transform(x, y, a, true, true) == transform(x, y, a + half_turn(), false, false),
{
    lemma_orientation_half_turn(a);
}

/// Turning a symbol half round puts each of its points on the other side of
/// its origin, for a symbol at a quarter-turn angle.
pub proof fn lemma_half_turn_negates(x: int, y: int, a: int, mirror_x: bool, mirror_y: bool)
    requires
        0 <= a <= 20_000_000_000_000,
        orientation(a) % 90 == 0,
    ensures
        transform(x, y, a + half_turn(), mirror_x, mirror_y) == (
            -transform(x, y, a, mirror_x, mirror_y).0,
            -transform(x, y, a, mirror_x, mirror_y).1,
        ),
{
    lemma_orientation_half_turn(a);
}


/// Mirroring about the X axis is negating the library Y coordinate, and
/// mirroring about the Y axis is negating the library X coordinate.
pub proof fn lemma_mirror_negates(x: int, y: int, a: int, mirror_x: bool, mirror_y: bool)
    ensures
        transform(x, y, a, true, mirror_y) == transform(x, -y, a, false, mirror_y),
        transform(x, y, a, mirror_x, true) == transform(-x, y, a, mirror_x, false),
{
}

/// An angle whose whole degrees are not a multiple of 90 acts as 0.
pub proof fn lemma_other_angles_act_as_zero(x: int, y: int, a: int, mirror_x: bool, mirror_y: bool)
    requires
        orientation(a) % 90 != 0,
    ensures
        transform(x, y, a, mirror_x, mirror_y) == transform(x, y, 0, mirror_x, mirror_y),
{
    assert(orientation(0) == 0);
}

/// Turning a symbol half round turns each of its pins the other way, for
/// a symbol at a quarter-turn angle.
pub proof fn lemma_half_turn_reverses_pins(sym: SymbolView, p: PinView)
    requires
        0 <= sym.angle <= 20_000_000_000_000,
        orientation(sym.angle) % 90 == 0,
    ensures
        pin_direction_of(SymbolView { angle: sym.angle + half_turn(), ..sym }, p) == opposite(
            pin_direction_of(sym, p),
        ),
{
    let (wx, wy) = wire_vector(p.angle);
    lemma_half_turn_negates(wx, wy, sym.angle, sym.mirror_x, sym.mirror_y);
    let (tx, ty) = transform(wx, wy, sym.angle, sym.mirror_x, sym.mirror_y);
    assert(tx != 0 || ty != 0);
}


// ────────────────────────────────────────────
// Layout
// ────────────────────────────────────────────

/// The unit step of a direction on the sheet (Y down).
pub open spec fn unit_step(d: PinOutDir) -> (int, int) {
    match d {
        PinOutDir::Right => (1, 0),
        PinOutDir::Left => (-1, 0),
        PinOutDir::Up => (0, -1),
        PinOutDir::Down => (0, 1),
    }
}

/// The wire runs from the pin in the direction the pin points, for the
/// wire length; the label is anchored at the wire's far end, where the bus
/// entry is.
pub proof fn lemma_layout_geometry(d: PinOutDir, w: int)
    ensures
        layout_spec(d, w).wire_dx == w * unit_step(d).0,
        layout_spec(d, w).wire_dy == w * unit_step(d).1,
        layout_spec(d, w).label_dx == layout_spec(d, w).wire_dx,
        layout_spec(d, w).label_dy == layout_spec(d, w).wire_dy,
{
}

/// The opposite of the opposite direction is the direction itself.
pub proof fn lemma_opposite_involution(d: PinOutDir)
    ensures
        opposite(opposite(d)) == d,
        unit_step(opposite(d)) == (-unit_step(d).0, -unit_step(d).1),
{
}

// ────────────────────────────────────────────
// The editor
// ────────────────────────────────────────────

/// Moving to the previous column undoes moving to the next one, and the
/// other way round.
pub proof fn lemma_column_moves_undo(a: AppView)
    requires
        0 <= a.sel_col < COLUMNS,
    ensures
        prev_col_spec(next_col_spec(a)) == a,
        next_col_spec(prev_col_spec(a)) == a,
{
}


/// Every key keeps a row and the cursor on a cell. While moving, `d` with
/// a single row changes nothing, and `a` appends a default row and puts
/// the cursor on its first cell.
pub proof fn lemma_key_keeps_editor(a: AppView, key: Key, v: SchematicView)
    requires
        app_wf(a),
    ensures
        app_wf(key_step(a, key, v).0),
        !a.editing && key == Key::Char('d') && a.rows.len() == 1 ==> key_step(a, key, v).0 == a,
        !a.editing && key == Key::Char('a') ==> {
            let b = key_step(a, key, v).0;
            b.rows == a.rows.push(default_row()) && b.sel_row == a.rows.len() && b.sel_col == 0
        },
{
}

/// The editor after a sequence of keys, handled until one quits or
/// generates.
pub open spec fn after_keys(a: AppView, keys: Seq<Key>, v: SchematicView) -> (AppView, KeyOutcome)
    decreases keys.len(),
{
    if keys.len() == 0 {
        (a, KeyOutcome::Continue)
    } else {
        let (b, o) = key_step(a, keys[0], v);
        if o == KeyOutcome::Continue {
            after_keys(b, keys.skip(1), v)
        } else {
            (b, o)
        }
    }
}

/// Any sequence of keys keeps a row and the cursor on a cell.
pub proof fn lemma_keys_keep_editor(a: AppView, keys: Seq<Key>, v: SchematicView)
    requires
        app_wf(a),
    ensures
        app_wf(after_keys(a, keys, v).0),
    decreases keys.len(),
{
    if keys.len() > 0 {
        lemma_key_keeps_editor(a, keys[0], v);
        let (b, o) = key_step(a, keys[0], v);
        if o == KeyOutcome::Continue {
            lemma_keys_keep_editor(b, keys.skip(1), v);
        }
    }
}


/// Rows without problems all read as bus groups: validation reports every
/// row that `row_bus_spec` could not turn into one.
pub proof fn lemma_valid_rows_convert(rows: Seq<RowView>, v: SchematicView)
    requires
        errors_of(rows, v).len() == 0,
    ensures
        rows_convert(rows),
    decreases rows.len(),
{
    if rows.len() > 0 {
        let r0 = rows.drop_last();
        let last = rows.last();
        let p = row_prefix(rows.len() as int);
        assert(errors_of(rows, v) == errors_of(r0, v) + row_errors(rows.len() as int, last, v));
        lemma_valid_rows_convert(r0, v);
        assert(cell_errors(p, last).len() == 0);
        assert(parse_i32_spec(last.start) is Some) by {
            if parse_i32_spec(last.start) is None {
                assert(error_if(parse_i32_spec(last.start) is None, p + ": Start invalid"@).len() == 1);
            }
        }
        assert(parse_i32_spec(last.end) is Some) by {
            if parse_i32_spec(last.end) is None {
                assert(error_if(parse_i32_spec(last.end) is None, p + ": End invalid"@).len() == 1);
            }
        }
        assert(float_scaled(last.wire_len, 8, INCH_LIMIT as nat) is Some) by {
            if float_scaled(last.wire_len, 8, INCH_LIMIT as nat) is None {
                assert(error_if(
                    float_scaled(last.wire_len, 8, INCH_LIMIT as nat) is None,
                    p + ": Wire len invalid"@,
                ).len() == 1);
            }
        }
        assert forall|i: int| 0 <= i < rows.len() implies (#[trigger] row_bus_spec(rows[i])) is Some by {
            if i < rows.len() - 1 {
                assert(r0[i] == rows[i]);
            }
        }
    }
}

/// When a key generates, every row becomes a bus group: `bus_specs` then
/// gives one for each row, in order.
pub proof fn lemma_generate_converts_all_rows(a: AppView, key: Key, v: SchematicView)
    requires
        key_step(a, key, v).1 == KeyOutcome::Generate,
    ensures
        key_step(a, key, v).0.rows == a.rows,
        rows_convert(a.rows),
{
    lemma_valid_rows_convert(a.rows, v);
}


// ────────────────────────────────────────────
// Numbers written and read back
// ────────────────────────────────────────────

proof fn lemma_digits_value_of(n: nat)
    ensures
        digits_value(nat_digits(n)) == n,
        !nat_digits(n).contains('.'),
        !nat_digits(n).contains('-'),
        !nat_digits(n).contains('+'),
    decreases n,
{
    lemma_nat_digits(n);
    let d = nat_digits(n);
    let k = (n % 10) as int;
    assert(digit_char(k) as int == '0' as int + k);
    if n >= 10 {
        lemma_digits_value_of(n / 10);
        assert(d.drop_last() =~= nat_digits(n / 10));
        assert(d.last() == digit_char(k));
        assert(digits_value(d) == digits_value(d.drop_last()) * 10 + (d.last() as int - '0' as int));
        assert((n / 10) * 10 + k == n);
    } else {
        assert(d =~= seq![digit_char(n as int)]);
        assert(d.drop_last() =~= Seq::<char>::empty());
        assert(digits_value(d.drop_last()) == 0);
        assert(d.last() == digit_char(n as int));
        assert(digits_value(d) == digits_value(d.drop_last()) * 10 + (d.last() as int - '0' as int));
        assert(k == n);
    }
    assert forall|c: char| !is_digit(c) implies !d.contains(c) by {
        if d.contains(c) {
            let i = choose|i: int| 0 <= i < d.len() && d[i] == c;
            assert(is_digit(d[i]));
        }
    }
    assert(!is_digit('.') && !is_digit('-') && !is_digit('+'));
}

/// Integers written as text read back: `i32::from_str` of `to_string`.
pub proof fn lemma_i32_text_round_trip(n: i32)
    ensures
        parse_i32_spec(dec(n as int)) == Some(n),
{
    if n >= 0 {
        lemma_digits_value_of(n as nat);
        lemma_nat_digits(n as nat);
        let d = nat_digits(n as nat);
        assert(is_digit(d[0]));
    } else {
        let m = (-(n as int)) as nat;
        lemma_digits_value_of(m);
        lemma_nat_digits(m);
        let s = seq!['-'] + nat_digits(m);
        assert(s.skip(1) =~= nat_digits(m));
    }
}

proof fn lemma_four_chars(f: Seq<char>)
    requires
        f.len() == 4,
        all_digits(f),
    ensures
        digits_value(f) == (((f[0] as int - '0' as int) * 10 + (f[1] as int - '0' as int)) * 10 + (
        f[2] as int - '0' as int)) * 10 + (f[3] as int - '0' as int),
{
    let f3 = f.drop_last();
    let f2 = f3.drop_last();
    let f1 = f2.drop_last();
    assert(f1.drop_last() =~= Seq::<char>::empty());
    assert(f1[0] == f[0] && f2[1] == f[1] && f3[2] == f[2]);
    assert(is_digit(f[0]) && is_digit(f[1]) && is_digit(f[2]) && is_digit(f[3]));
    assert(digits_value(f1.drop_last()) == 0);
    assert(f1.last() == f[0]);
    assert(digits_value(f1) == f[0] as int - '0' as int);
    assert(digits_value(f2) == digits_value(f1) * 10 + (f[1] as int - '0' as int));
    assert(digits_value(f3) == digits_value(f2) * 10 + (f[2] as int - '0' as int));
}

proof fn lemma_digit_char(x: int)
    requires
        0 <= x < 10,
    ensures
        is_digit(digit_char(x)),
        digit_char(x) as int - '0' as int == x,
{
}

proof fn lemma_four_places(r: int)
    requires
        0 <= r < 10000,
    ensures
        0 <= r / 1000 < 10,
        0 <= (r / 100) % 10 < 10,
        0 <= (r / 10) % 10 < 10,
        0 <= r % 10 < 10,
        (((r / 1000) * 10 + (r / 100) % 10) * 10 + (r / 10) % 10) * 10 + r % 10 == r,
{
}

proof fn lemma_four_digits(r: int)
    requires
        0 <= r < 10000,
    ensures
        all_digits(four_digits(r)),
        four_digits(r).len() == 4,
        digits_value(four_digits(r)) == r,
{
    let f = four_digits(r);
    lemma_four_places(r);
    lemma_digit_char(r / 1000);
    lemma_digit_char((r / 100) % 10);
    lemma_digit_char((r / 10) % 10);
    lemma_digit_char(r % 10);
    assert(f[0] == digit_char(r / 1000));
    assert(f[1] == digit_char((r / 100) % 10));
    assert(f[2] == digit_char((r / 10) % 10));
    assert(f[3] == digit_char(r % 10));
    assert forall|i: int| 0 <= i < 4 implies is_digit(#[trigger] f[i]) by {
        if i == 0 {
        } else if i == 1 {
        } else if i == 2 {
        } else {
        }
    }
    lemma_four_chars(f);
}

/// The text `fixed4_text(neg, m)` read as a number: its sign, the digits
/// of `m / 10000` before the point, four after it, no exponent.
proof fn lemma_fixed4_number(neg: bool, m: nat)
    ensures
        float_negative(fixed4_text(neg, m)) == neg,
        float_number(float_body(fixed4_text(neg, m))) == Some(
            (nat_digits(m / 10000), four_digits((m % 10000) as int), 0int),
        ),
        digits_value(nat_digits(m / 10000) + four_digits((m % 10000) as int)) == m,
{
    let q = m / 10000;
    let r = (m % 10000) as int;
    let w = nat_digits(q);
    let f = four_digits(r);
    lemma_nat_digits(q);
    lemma_digits_value_of(q);
    lemma_four_digits(r);
    let body = w + seq!['.'] + f;
    assert(body =~= w + (seq!['.'] + f));
    let t = fixed4_text(neg, m);
    if neg {
        assert(t =~= seq!['-'] + body);
        assert(t.skip(1) =~= body);
    } else {
        assert(t =~= body);
        assert(t[0] == w[0]);
        assert(is_digit(w[0]));
    }
    assert(float_body(t) == body);
    assert forall|j: int| 0 <= j < body.len() implies body[j] != 'e' && body[j] != 'E' by {
        if j < w.len() {
            assert(body[j] == w[j]);
            assert(is_digit(w[j]));
        } else if j > w.len() {
            assert(body[j] == f[j - w.len() - 1]);
            assert(is_digit(f[j - w.len() - 1]));
        }
    }
    assert forall|j: int| 0 <= j < w.len() implies w[j] != '.' && w[j] != '.' by {
        assert(is_digit(w[j]));
    }
    lemma_first_of_after(body, Seq::<char>::empty(), 'e', 'E');
    assert(body + Seq::<char>::empty() =~= body);
    lemma_first_of_after(w, seq!['.'] + f, '.', '.');
    assert(body.take(body.len() as int) =~= body);
    assert(body.take(w.len() as int) =~= w);
    assert(body.skip(w.len() as int + 1) =~= f);
    lemma_digits_value_concat(w, f);
    lemma_pow10_values();
    assert(q * 10000 + r == m);
}

/// Numbers written with four decimals read back exactly, at four or more
/// decimals, as long as the scaled value is within the limit.
pub proof fn lemma_fixed4_reads_back(neg: bool, m: nat, k: nat, limit: nat)
    requires
        k >= 4,
        m * pow10((k - 4) as nat) <= limit,
    ensures
        float_scaled(fixed4_text(neg, m), k, limit) == Some(
            if neg {
                -(m * pow10((k - 4) as nat))
            } else {
                (m * pow10((k - 4) as nat)) as int
            },
        ),
{
    lemma_fixed4_number(neg, m);
}

/// Numbers written with four decimals read back exactly.
pub proof fn lemma_fixed4_round_trip(v: int)
    requires
        -(NUMBER_LIMIT as int) <= v <= NUMBER_LIMIT as int,
    ensures
        float_value(fixed4(v)) == Some(v),
{
    let m = (if v < 0 { -v } else { v }) as nat;
    lemma_pow10_values();
    assert(m * pow10(0) == m) by (nonlinear_arith)
        requires
            pow10(0) == 1,
    ;
    lemma_fixed4_reads_back(v < 0, m, 4, NUMBER_LIMIT as nat);
}

/// Ten-thousandths of an inch, read at 10⁻⁸ inch, convert to the same
/// units as directly.
proof fn lemma_inch8_of_inch4(i: int)
    ensures
        inch8_to_units(i * 10000) == inch4_to_units(i),
{
    let a = if i >= 0 { i * 254 + 5 } else { (-i) * 254 + 5 };
    let q = a / 10;
    let r = a % 10;
    assert(a == q * 10 + r && 0 <= r < 10);
    assert(10000 * a == q * 100000 + 10000 * r);
    vstd::arithmetic::div_mod::lemma_fundamental_div_mod_converse(10000 * a, 100000, q, 10000 * r);
    if i >= 0 {
        assert(i * 10000 * 254 + 50000 == 10000 * a);
    } else {
        assert((-(i * 10000)) * 254 + 50000 == 10000 * a);
    }
}

/// A length rounded to ten-thousandths of an inch and back stays within
/// 13 units (1.3 µm) of itself.
pub proof fn lemma_inch_rounding(u: int)
    ensures
        -13 <= inch4_to_units(units_to_inch4(u)) - u <= 13,
{
    if u >= 0 {
        let i = (u * 10 + 127) / 254;
        assert(254 * i <= u * 10 + 127 < 254 * i + 254);
        let b = (i * 254 + 5) / 10;
        assert(10 * b <= i * 254 + 5 < 10 * b + 10);
    } else {
        let w = -u;
        let i = (w * 10 + 127) / 254;
        assert(254 * i <= w * 10 + 127 < 254 * i + 254);
        let b = (i * 254 + 5) / 10;
        assert(10 * b <= i * 254 + 5 < 10 * b + 10);
        assert(units_to_inch4(u) == -i);
        assert(inch4_to_units(-i) == -b) by {
            if i == 0 {
                assert(b == 0);
            }
        }
    }
}

/// A saved session comes back: the row restored from a saved row gives the
/// same bus group, with the wire length within 13 units (the rounding to
/// ten-thousandths of an inch), for wire lengths up to 5·10¹⁶ units.
pub proof fn lemma_session_round_trip(s: SavedRow)
    requires
        -50_000_000_000_000_000 <= s.wire_len <= 50_000_000_000_000_000,
    ensures
        row_bus_spec(row_from_saved(s)) is Some,
        row_bus_spec(row_from_saved(s)).unwrap().reference == s.reference@,
        row_bus_spec(row_from_saved(s)).unwrap().pin_prefix == s.pin_prefix@,
        row_bus_spec(row_from_saved(s)).unwrap().prefix == s.prefix@,
        row_bus_spec(row_from_saved(s)).unwrap().start == s.start,
        row_bus_spec(row_from_saved(s)).unwrap().end == s.end,
        -13 <= row_bus_spec(row_from_saved(s)).unwrap().wire_len - s.wire_len <= 13,
{
    let u = s.wire_len as int;
    let i = units_to_inch4(u);
    let m = (if u < 0 { -i } else { i }) as nat;
    assert(u < 0 ==> i <= 0);
    assert(u >= 0 ==> i >= 0);
    assert(m <= 2_000_000_000_000_000) by {
        if u >= 0 {
            assert((u * 10 + 127) / 254 <= 2_000_000_000_000_000);
        } else {
            assert(((-u) * 10 + 127) / 254 <= 2_000_000_000_000_000);
        }
    }
    lemma_pow10_values();
    assert(m * pow10(4) <= 20_000_000_000_000_000_000) by (nonlinear_arith)
        requires
            pow10(4) == 10000,
            m <= 2_000_000_000_000_000,
    ;
    lemma_fixed4_reads_back(u < 0, m, 8, INCH_LIMIT as nat);
    assert(float_scaled(row_from_saved(s).wire_len, 8, INCH_LIMIT as nat) == Some(i * 10000));
    lemma_inch8_of_inch4(i);
    lemma_i32_text_round_trip(s.start);
    lemma_i32_text_round_trip(s.end);
    lemma_inch_rounding(u);
}

// ────────────────────────────────────────────
// What the operations are for
// ────────────────────────────────────────────

/// A quarter turn counter-clockwise on the sheet (Y down): left, down,
/// right, up, left.
pub open spec fn quarter_ccw(d: PinOutDir) -> PinOutDir {
    match d {
        PinOutDir::Left => PinOutDir::Down,
        PinOutDir::Down => PinOutDir::Right,
        PinOutDir::Right => PinOutDir::Up,
        PinOutDir::Up => PinOutDir::Left,
    }
}

/// A quarter turn of the pin angle, 90°, in ten-thousandths of a degree.
pub open spec fn quarter_turn() -> int {
    900000
}

/// The wire leaves a pin against its pin line, `(-cos a, -sin a)` in
/// library coordinates (Y up): at 0° it leaves to the left, and turning the
/// pin a quarter turn counter-clockwise turns the wire the same way, so
/// that `(x, y)` becomes `(-y, x)`.
pub proof fn lemma_wire_leaves_against_pin_line(k: int)
    requires
        0 <= k < 4,
    ensures
        wire_vector(0) == (-1int, 0int),
        wire_vector((k + 1) * quarter_turn()) == (
            -wire_vector(k * quarter_turn()).1,
            wire_vector(k * quarter_turn()).0,
        ),
{
}

/// On a symbol that is neither turned nor mirrored, a pin at 0° points
/// left on the sheet, and each quarter turn of the pin (counter-clockwise
/// in the library, Y up) turns its direction a quarter turn
/// counter-clockwise on the sheet (Y down): 90° points down, 180° right,
/// 270° up.
pub proof fn lemma_pin_turns_with_its_angle(sym: SymbolView, p: PinView, k: int)
    requires
        orientation(sym.angle) == 0,
        !sym.mirror_x,
        !sym.mirror_y,
        0 <= k < 4,
    ensures
        pin_direction_of(sym, PinView { angle: 0, ..p }) == PinOutDir::Left,
        pin_direction_of(sym, PinView { angle: (k + 1) * quarter_turn(), ..p }) == quarter_ccw(
            pin_direction_of(sym, PinView { angle: k * quarter_turn(), ..p }),
        ),
{
    lemma_wire_leaves_against_pin_line(k);
}

/// The placements of a bus group follow its pin numbers: the pins run from
/// `start` to `end` one number at a time (down where `end < start`), and
/// placement `i` is at the pin named with the `i`-th number and labelled
/// with the prefix and that same number.
pub proof fn lemma_labels_follow_pin_numbers(v: SchematicView, b: BusSpecView)
    requires
        bus_placements(v, b) is Ok,
    ensures
        resolve_spec(v, b.reference, b.pin_prefix, b.start, b.end) is Ok,
        ({
            let names = resolve_spec(v, b.reference, b.pin_prefix, b.start, b.end)->Ok_0;
            let ps = bus_placements(v, b)->Ok_0;
            &&& names.len() == (if b.end >= b.start { b.end - b.start + 1 } else { b.start - b.end + 1 })
            &&& ps.len() == names.len()
            &&& forall|i: int|
                0 <= i < ps.len() ==> {
                    let k = if b.end >= b.start { b.start + i } else { b.start - i };
                    &&& names[i] == name_for(b.pin_prefix, k)
                    &&& (#[trigger] ps[i]).net_label == b.prefix + dec(k)
                    &&& pin_position_spec(v, b.reference, names[i]) == Some((ps[i].x, ps[i].y))
                }
        }),
{
    let names = resolve_spec(v, b.reference, b.pin_prefix, b.start, b.end)->Ok_0;
    let ps = bus_placements(v, b)->Ok_0;
    assert forall|i: int| 0 <= i < ps.len() implies {
        let k = if b.end >= b.start { b.start + i } else { b.start - i };
        &&& names[i] == name_for(b.pin_prefix, k)
        &&& (#[trigger] ps[i]).net_label == b.prefix + dec(k)
        &&& pin_position_spec(v, b.reference, names[i]) == Some((ps[i].x, ps[i].y))
    } by {
        lemma_resolved_pins_are_placed(v, b.reference, b.pin_prefix, b.start, b.end);
        assert(pin_position_spec(v, b.reference, names[i]) is Some);
    }
}

/// While moving, `d` on a table of more than one row deletes the selected
/// row: the rows before it stay, the rows after it move up by one, and the
/// cursor stays on its place (on the last row where it was past it).
pub proof fn lemma_delete_removes_selected_row(a: AppView, v: SchematicView)
    requires
        app_wf(a),
        !a.editing,
        a.rows.len() > 1,
    ensures
        ({
            let b = key_step(a, Key::Char('d'), v).0;
            &&& b.rows.len() == a.rows.len() - 1
            &&& forall|j: int| 0 <= j < a.sel_row ==> b.rows[j] == a.rows[j]
            &&& forall|j: int| a.sel_row <= j < b.rows.len() ==> b.rows[j] == a.rows[j + 1]
            &&& b.sel_row == (if a.sel_row < b.rows.len() { a.sel_row } else { b.rows.len() - 1 })
        }),
{
}

/// Rows without problems are complete and resolve: each has a Ref, a Pin
/// Prefix and a Prefix, reads as a bus group, and that group's pin names
/// all exist on its symbol.
pub proof fn lemma_valid_rows_resolve(rows: Seq<RowView>, v: SchematicView)
    requires
        errors_of(rows, v).len() == 0,
    ensures
        forall|i: int|
            0 <= i < rows.len() ==> {
                &&& (#[trigger] rows[i]).reference.len() > 0
                &&& rows[i].pin_prefix.len() > 0
                &&& rows[i].prefix.len() > 0
                &&& row_bus_spec(rows[i]) is Some
                &&& resolve_spec(
                    v,
                    row_bus_spec(rows[i]).unwrap().reference,
                    row_bus_spec(rows[i]).unwrap().pin_prefix,
                    row_bus_spec(rows[i]).unwrap().start,
                    row_bus_spec(rows[i]).unwrap().end,
                ) is Ok
            },
    decreases rows.len(),
{
    if rows.len() > 0 {
        let r0 = rows.drop_last();
        let last = rows.last();
        let n = rows.len() as int;
        let p = row_prefix(n);
        assert(errors_of(rows, v) == errors_of(r0, v) + row_errors(n, last, v));
        lemma_valid_rows_resolve(r0, v);
        lemma_valid_rows_convert(rows, v);
        assert(row_bus_spec(rows[n - 1]) is Some);
        let c = cell_errors(p, last);
        assert(c.len() == 0);
        assert(last.reference.len() > 0) by {
            if last.reference.len() == 0 {
                assert(error_if(last.reference.len() == 0, p + ": Ref empty"@).len() == 1);
            }
        }
        assert(last.pin_prefix.len() > 0) by {
            if last.pin_prefix.len() == 0 {
                assert(error_if(last.pin_prefix.len() == 0, p + ": Pin Prefix empty"@).len() == 1);
            }
        }
        assert(last.prefix.len() > 0) by {
            if last.prefix.len() == 0 {
                assert(error_if(last.prefix.len() == 0, p + ": Prefix empty"@).len() == 1);
            }
        }
        assert(format_errors(p, last, v).len() == 0);
        assert forall|i: int| 0 <= i < rows.len() implies {
            &&& (#[trigger] rows[i]).reference.len() > 0
            &&& rows[i].pin_prefix.len() > 0
            &&& rows[i].prefix.len() > 0
            &&& row_bus_spec(rows[i]) is Some
            &&& resolve_spec(
                v,
                row_bus_spec(rows[i]).unwrap().reference,
                row_bus_spec(rows[i]).unwrap().pin_prefix,
                row_bus_spec(rows[i]).unwrap().start,
                row_bus_spec(rows[i]).unwrap().end,
            ) is Ok
        } by {
            if i < rows.len() - 1 {
                assert(r0[i] == rows[i]);
            }
        }
    }
}

/// Filtering suggestions ignores case: two lists of suggestions whose
/// lowercase forms agree keep the same places, and filters whose
/// lowercase forms agree filter alike.
pub proof fn lemma_filter_ignores_case(
    s1: Seq<Seq<char>>,
    s2: Seq<Seq<char>>,
    f1: Seq<char>,
    f2: Seq<char>,
)
    requires
        s1.len() == s2.len(),
        forall|i: int| 0 <= i < s1.len() ==> lowercase(#[trigger] s1[i]) == lowercase(s2[i]),
        lowercase(f1) == lowercase(f2),
    ensures
        matching_suggestions(s1, f1).len() == matching_suggestions(s2, f2).len(),
        forall|i: int|
            0 <= i < matching_suggestions(s1, f1).len() ==> lowercase(
                #[trigger] matching_suggestions(s1, f1)[i],
            ) == lowercase(matching_suggestions(s2, f2)[i]),
    decreases s1.len(),
{
    if s1.len() > 0 {
        let t1 = s1.drop_last();
        let t2 = s2.drop_last();
        assert forall|i: int| 0 <= i < t1.len() implies lowercase(#[trigger] t1[i]) == lowercase(t2[i]) by {
            assert(t1[i] == s1[i] && t2[i] == s2[i]);
        }
        lemma_filter_ignores_case(t1, t2, f1, f2);
        assert(lowercase(s1.last()) == lowercase(s2.last()));
        let m1 = matching_suggestions(s1, f1);
        let m2 = matching_suggestions(s2, f2);
        let b1 = matching_suggestions(t1, f1);
        let b2 = matching_suggestions(t2, f2);
        assert forall|i: int| 0 <= i < m1.len() implies lowercase(#[trigger] m1[i]) == lowercase(m2[i]) by {
            if i < b1.len() {
                assert(m1[i] == b1[i] && m2[i] == b2[i]);
            }
        }
    }
}

/// Pin angles between the quarter turns point like the nearest quarter
/// turn, and angles a full turn apart point alike.
pub proof fn lemma_wire_nearest_quarter(a: int)
    requires
        0 <= a < 3600000,
    ensures
        wire_vector(a + 3600000) == wire_vector(a),
        a % quarter_turn() < quarter_turn() / 2 ==> wire_vector(a) == wire_vector(
            a - a % quarter_turn(),
        ),
        a % quarter_turn() > quarter_turn() / 2 ==> wire_vector(a) == wire_vector(
            (a - a % quarter_turn() + quarter_turn()) % 3600000,
        ),
{
}

/// Turning a symbol a quarter turn counter-clockwise turns each of its
/// pins a quarter turn counter-clockwise on the sheet, mirrored or not,
/// for a symbol at a quarter-turn angle.
pub proof fn lemma_symbol_quarter_turn_turns_pins(sym: SymbolView, p: PinView)
    requires
        0 <= sym.angle <= 20_000_000_000_000,
        orientation(sym.angle) % 90 == 0,
    ensures
        pin_direction_of(SymbolView { angle: sym.angle + quarter_turn(), ..sym }, p) == quarter_ccw(
            pin_direction_of(sym, p),
        ),
{
    assert((sym.angle + 900000) / 10000 == sym.angle / 10000 + 90);
    assert(whole_degrees(sym.angle + 900000) == whole_degrees(sym.angle) + 90);
}

/// The keys while a cell is edited: a character is added to the text, a
/// backspace takes the last one away, Esc drops the edit, and Enter or Tab
/// stores the text in the selected cell, leaves every other cell as it
/// was, and moves to the next column.
pub proof fn lemma_editing_keys(a: AppView, v: SchematicView, c: char)
    requires
        app_wf(a),
        a.editing,
    ensures
        ({
            let b = key_step(a, Key::Char(c), v).0;
            b.editing && b.edit_buf == a.edit_buf.push(c) && b.rows == a.rows
        }),
        ({
            let b = key_step(a, Key::Backspace, v).0;
            &&& b.editing && b.rows == a.rows
            &&& b.edit_buf.len() == (if a.edit_buf.len() > 0 { a.edit_buf.len() - 1 } else { 0 })
            &&& b.edit_buf == a.edit_buf.take(b.edit_buf.len() as int)
        }),
        ({
            let b = key_step(a, Key::Esc, v).0;
            !b.editing && b.edit_buf.len() == 0 && b.rows == a.rows && b.sel_col == a.sel_col
        }),
        ({
            let b = key_step(a, Key::Enter, v).0;
            &&& !b.editing
            &&& b.rows.len() == a.rows.len()
            &&& b.sel_row == a.sel_row
            &&& b.sel_col == (if a.sel_col == COLUMNS - 1 { 0 } else { a.sel_col + 1 })
            &&& column_text(b.rows[a.sel_row], a.sel_col) == a.edit_buf
            &&& forall|col: int|
                0 <= col < COLUMNS && col != a.sel_col ==> column_text(b.rows[a.sel_row], col)
                    == column_text(a.rows[a.sel_row], col)
            &&& forall|j: int| 0 <= j < a.rows.len() && j != a.sel_row ==> b.rows[j] == a.rows[j]
        }),
{
    let b = key_step(a, Key::Backspace, v).0;
    if a.edit_buf.len() > 0 {
        assert(a.edit_buf.drop_last() =~= a.edit_buf.take(a.edit_buf.len() - 1));
    } else {
        assert(a.edit_buf.take(0) =~= a.edit_buf);
    }
}

/// The keys while moving: Up and Down move the cursor one row within the
/// table, Left and Right one column round the six, Enter starts editing
/// the cell's text and another character starts a new text with it;
/// `q` and Esc quit. None of them changes a row.
pub proof fn lemma_moving_keys(a: AppView, v: SchematicView, c: char)
    requires
        app_wf(a),
        !a.editing,
    ensures
        ({
            let b = key_step(a, Key::Up, v).0;
            b.rows == a.rows && b.sel_row == (if a.sel_row > 0 { a.sel_row - 1 } else { 0 })
                && b.sel_col == a.sel_col
        }),
        ({
            let b = key_step(a, Key::Down, v).0;
            b.rows == a.rows && b.sel_row == (if a.sel_row + 1 < a.rows.len() {
                a.sel_row + 1
            } else {
                a.sel_row
            }) && b.sel_col == a.sel_col
        }),
        ({
            let b = key_step(a, Key::Right, v).0;
            b.rows == a.rows && b.sel_row == a.sel_row && b.sel_col == (if a.sel_col == COLUMNS
                - 1 {
                0
            } else {
                a.sel_col + 1
            })
        }),
        ({
            let b = key_step(a, Key::Left, v).0;
            b.rows == a.rows && b.sel_row == a.sel_row && b.sel_col == (if a.sel_col == 0 {
                COLUMNS - 1
            } else {
                a.sel_col - 1
            })
        }),
        ({
            let b = key_step(a, Key::Enter, v).0;
            b.editing && b.rows == a.rows && b.edit_buf == column_text(a.rows[a.sel_row], a.sel_col)
        }),
        c != 'q' && c != 'g' && c != 'a' && c != 'd' ==> ({
            let b = key_step(a, Key::Char(c), v).0;
            b.editing && b.rows == a.rows && b.edit_buf == seq![c]
        }),
        key_step(a, Key::Char('q'), v).1 == KeyOutcome::Quit,
        key_step(a, Key::Esc, v).1 == KeyOutcome::Quit,
{
}

/// `r` is taken from `s` at the rising places `idx`.
pub open spec fn picked_in_order(idx: Seq<int>, s: Seq<Seq<char>>, r: Seq<Seq<char>>) -> bool {
    &&& idx.len() == r.len()
    &&& forall|i: int| 0 <= i < idx.len() ==> 0 <= #[trigger] idx[i] < s.len() && s[idx[i]] == r[i]
    &&& forall|i: int, j: int| 0 <= i < j < idx.len() ==> idx[i] < idx[j]
}

/// At most eight suggestions are shown, each one of the suggestions, in
/// the order they were given.
pub proof fn lemma_shown_suggestions(s: Seq<Seq<char>>, f: Seq<char>)
    ensures
        matching_suggestions(s, f).len() <= 8,
        exists|idx: Seq<int>| picked_in_order(idx, s, matching_suggestions(s, f)),
    decreases s.len(),
{
    if s.len() == 0 {
        assert(picked_in_order(Seq::empty(), s, matching_suggestions(s, f)));
    } else {
        let t = s.drop_last();
        lemma_shown_suggestions(t, f);
        let m = matching_suggestions(t, f);
        let idx0 = choose|idx: Seq<int>| picked_in_order(idx, t, m);
        let r = matching_suggestions(s, f);
        if r.len() == m.len() {
            assert(r == m);
            assert forall|i: int| 0 <= i < idx0.len() implies 0 <= #[trigger] idx0[i] < s.len()
                && s[idx0[i]] == r[i] by {
                assert(t[idx0[i]] == s[idx0[i]]);
            }
            assert(picked_in_order(idx0, s, r));
        } else {
            let idx1 = idx0.push(s.len() - 1);
            assert(r == m.push(s.last()));
            assert forall|i: int| 0 <= i < idx1.len() implies 0 <= #[trigger] idx1[i] < s.len()
                && s[idx1[i]] == r[i] by {
                if i < idx0.len() {
                    assert(idx1[i] == idx0[i]);
                    assert(t[idx0[i]] == s[idx0[i]]);
                }
            }
            assert forall|i: int, j: int| 0 <= i < j < idx1.len() implies idx1[i] < idx1[j] by {
                assert(idx1[i] == idx0[i]);
                assert(0 <= idx0[i] < t.len());
                if j < idx0.len() {
                    assert(idx1[j] == idx0[j]);
                }
            }
            assert(picked_in_order(idx1, s, r));
        }
    }
}

} // verus!
