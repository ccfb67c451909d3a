//! The textual form of paths: the grammar `segment ('.' segment)*` with
//! `segment := field index*`, `field := quoted-field | bare-field`,
//! `index := '[' digits ']'`, its parser, and the canonical renderer that
//! inverts the parser.
//!
//! A quoted field keeps its delimiting quotes in the segment name. A bare
//! field is a nonempty run of characters other than `.`, `[` and `"`.

use vstd::prelude::*;
use vstd::string::{StrSliceExecFns, StringExecFns};

use crate::lookup::{views_of, Lookup, LookupError, SegView, Segment};

verus! {

broadcast use vstd::utf8::char_u32_cast;

/// Characters that end a bare field run.
pub open spec fn is_reserved(c: char) -> bool {
    c == '.' || c == '[' || c == '"'
}

/// Decimal digit characters.
pub open spec fn is_digit(c: char) -> bool {
    48 <= (c as u32) <= 57
}

/// The numeric value of a digit character.
pub open spec fn digit_val(c: char) -> int {
    (c as u32) - 48
}

/// The digit character for a value below ten.
pub open spec fn digit_char(d: int) -> char {
    ((48 + d) as u32) as char
}

/// The first position at or after `i` holding a reserved character, or the
/// end of the string.
pub open spec fn bare_end(s: Seq<char>, i: int) -> int
    decreases s.len() - i,
    when 0 <= i <= s.len()
{
    if i >= s.len() {
        i
    } else if is_reserved(s[i]) {
        i
    } else {
        bare_end(s, i + 1)
    }
}

/// The first position at or after `i` holding `'"'`, or the end.
pub open spec fn quote_end(s: Seq<char>, i: int) -> int
    decreases s.len() - i,
    when 0 <= i <= s.len()
{
    if i >= s.len() {
        i
    } else if s[i] == '"' {
        i
    } else {
        quote_end(s, i + 1)
    }
}

/// The first position at or after `i` holding a non-digit, or the end.
pub open spec fn digits_end(s: Seq<char>, i: int) -> int
    decreases s.len() - i,
    when 0 <= i <= s.len()
{
    if i >= s.len() {
        i
    } else if !is_digit(s[i]) {
        i
    } else {
        digits_end(s, i + 1)
    }
}

/// The value of the digit run `s[i..j)`, most significant digit first.
pub open spec fn digits_val(s: Seq<char>, i: int, j: int) -> int
    decreases j - i,
    when i <= j
{
    if j <= i {
        0
    } else {
        digits_val(s, i, j - 1) * 10 + digit_val(s[j - 1])
    }
}

pub proof fn lemma_bare_end(s: Seq<char>, i: int)
    requires
        0 <= i <= s.len(),
    ensures
        i <= bare_end(s, i) <= s.len(),
        forall|k: int| i <= k < bare_end(s, i) ==> !is_reserved(s[k]),
        bare_end(s, i) < s.len() ==> is_reserved(s[bare_end(s, i)]),
    decreases s.len() - i,
{
    if i < s.len() && !is_reserved(s[i]) {
        lemma_bare_end(s, i + 1);
    }
}

pub proof fn lemma_quote_end(s: Seq<char>, i: int)
    requires
        0 <= i <= s.len(),
    ensures
        i <= quote_end(s, i) <= s.len(),
        forall|k: int| i <= k < quote_end(s, i) ==> s[k] != '"',
        quote_end(s, i) < s.len() ==> s[quote_end(s, i)] == '"',
    decreases s.len() - i,
{
    if i < s.len() && s[i] != '"' {
        lemma_quote_end(s, i + 1);
    }
}

pub proof fn lemma_digits_end(s: Seq<char>, i: int)
    requires
        0 <= i <= s.len(),
    ensures
        i <= digits_end(s, i) <= s.len(),
        forall|k: int| i <= k < digits_end(s, i) ==> is_digit(s[k]),
        digits_end(s, i) < s.len() ==> !is_digit(s[digits_end(s, i)]),
    decreases s.len() - i,
{
    if i < s.len() && is_digit(s[i]) {
        lemma_digits_end(s, i + 1);
    }
}

/// One field starting at `i`: the segment name (quotes kept for a quoted
/// field) and the position after it.
pub open spec fn parse_field_at(s: Seq<char>, i: int) -> Option<(Seq<char>, int)> {
    if 0 <= i && i < s.len() {
        if s[i] == '"' {
            let j = quote_end(s, i + 1);
            if j < s.len() {
                Some((s.subrange(i, j + 1), j + 1))
            } else {
                None
            }
        } else {
            let j = bare_end(s, i);
            if j > i {
                Some((s.subrange(i, j), j))
            } else {
                None
            }
        }
    } else {
        None
    }
}

/// One bracketed index starting at `i` (which must hold `'['`): its value
/// and the position after the closing bracket. An index whose value does
/// not fit a machine word is refused.
pub open spec fn parse_index_at(s: Seq<char>, i: int) -> Option<(int, int)> {
    if 0 <= i && i < s.len() && s[i] == '[' {
        let j = digits_end(s, i + 1);
        if j > i + 1 && j < s.len() && s[j] == ']' && digits_val(s, i + 1, j) <= usize::MAX as int {
            Some((digits_val(s, i + 1, j), j + 1))
        } else {
            None
        }
    } else {
        None
    }
}

pub proof fn lemma_parse_field_bounds(s: Seq<char>, i: int)
    requires
        0 <= i <= s.len(),
        parse_field_at(s, i) is Some,
    ensures
        i < parse_field_at(s, i).unwrap().1 <= s.len(),
{
    if i < s.len() {
        if s[i] == '"' {
            lemma_quote_end(s, i + 1);
        } else {
            lemma_bare_end(s, i);
        }
    }
}

pub proof fn lemma_parse_index_bounds(s: Seq<char>, i: int)
    requires
        0 <= i <= s.len(),
        parse_index_at(s, i) is Some,
    ensures
        i + 2 < parse_index_at(s, i).unwrap().1 <= s.len(),
{
    if i < s.len() && s[i] == '[' {
        lemma_digits_end(s, i + 1);
    }
}

/// The remaining segments from position `i`, appended to `acc`. At this
/// point a field has already been read, so the input continues with `'.'`
/// and a field, `'['` and an index, or ends.
pub open spec fn parse_rest(s: Seq<char>, i: int, acc: Seq<SegView>) -> Option<Seq<SegView>>
    decreases s.len() - i,
    when 0 <= i <= s.len()
    via parse_rest_dec
{
    if i >= s.len() {
        Some(acc)
    } else if s[i] == '[' {
        match parse_index_at(s, i) {
            Some((n, j)) => parse_rest(s, j, acc.push(SegView::Index(n))),
            None => None,
        }
    } else if s[i] == '.' {
        match parse_field_at(s, i + 1) {
            Some((f, j)) => parse_rest(s, j, acc.push(SegView::Field(f))),
            None => None,
        }
    } else {
        None
    }
}

#[via_fn]
proof fn parse_rest_dec(s: Seq<char>, i: int, acc: Seq<SegView>) {
    if 0 <= i && i < s.len() {
        if s[i] == '[' {
            if parse_index_at(s, i) is Some {
                lemma_parse_index_bounds(s, i);
            }
        } else if s[i] == '.' {
            if parse_field_at(s, i + 1) is Some {
                lemma_parse_field_bounds(s, i + 1);
            }
        }
    }
}

/// The parse of a whole textual path: the flattened segment sequence, or
/// nothing where the input does not follow the grammar. The empty string
/// never parses.
pub open spec fn parse_path(s: Seq<char>) -> Option<Seq<SegView>> {
    match parse_field_at(s, 0) {
        Some((f, j)) => parse_rest(s, j, seq![SegView::Field(f)]),
        None => None,
    }
}

/// The canonical decimal digits of a non-negative number.
pub open spec fn dec_digits(n: int) -> Seq<char>
    decreases n,
    when n >= 0
{
    if n < 10 {
        seq![digit_char(n)]
    } else {
        dec_digits(n / 10).push(digit_char(n % 10))
    }
}

/// The rendering of a path's first segment.
pub open spec fn render_first(seg: SegView) -> Seq<char> {
    match seg {
        SegView::Field(f) => f,
        SegView::Index(n) => seq!['['] + dec_digits(n) + seq![']'],
    }
}

/// The rendering of a segment that follows another: a field is preceded
/// by `'.'`, an index by nothing.
pub open spec fn render_tail_seg(seg: SegView) -> Seq<char> {
    match seg {
        SegView::Field(f) => seq!['.'] + f,
        SegView::Index(n) => seq!['['] + dec_digits(n) + seq![']'],
    }
}

/// The rendering of the segments after the first.
pub open spec fn render_tail(q: Seq<SegView>) -> Seq<char>
    decreases q.len(),
{
    if q.len() == 0 {
        Seq::empty()
    } else {
        render_tail_seg(q[0]) + render_tail(q.skip(1))
    }
}

/// The canonical textual form of a path: the formal inverse of the parser
/// on inputs whose indices are canonically written.
pub open spec fn render_path(p: Seq<SegView>) -> Seq<char> {
    if p.len() == 0 {
        Seq::empty()
    } else {
        render_first(p[0]) + render_tail(p.skip(1))
    }
}

/// Whether every index written in `s`, as the parser reads it, is in
/// canonical decimal form: no leading zero unless the index is `0` itself.
/// Positions that do not parse are not constrained.
pub open spec fn canonical_rest(s: Seq<char>, i: int) -> bool
    decreases s.len() - i,
    when 0 <= i <= s.len()
    via canonical_rest_dec
{
    if i >= s.len() {
        true
    } else if s[i] == '[' {
        match parse_index_at(s, i) {
            Some((n, j)) => (s[i + 1] != '0' || j == i + 3) && canonical_rest(s, j),
            None => true,
        }
    } else if s[i] == '.' {
        match parse_field_at(s, i + 1) {
            Some((f, j)) => canonical_rest(s, j),
            None => true,
        }
    } else {
        true
    }
}

#[via_fn]
proof fn canonical_rest_dec(s: Seq<char>, i: int) {
    if 0 <= i && i < s.len() {
        if s[i] == '[' {
            if parse_index_at(s, i) is Some {
                lemma_parse_index_bounds(s, i);
            }
        } else if s[i] == '.' {
            if parse_field_at(s, i + 1) is Some {
                lemma_parse_field_bounds(s, i + 1);
            }
        }
    }
}

/// Whether a textual path writes every index canonically; such inputs are
/// exactly those the renderer reproduces character for character.
pub open spec fn canonical_path(s: Seq<char>) -> bool {
    match parse_field_at(s, 0) {
        Some((f, j)) => canonical_rest(s, j),
        None => true,
    }
}

/// For a digit character: its value is a single decimal digit, the digit
/// character of that value is the character itself, and only `'0'` has
/// value zero.
proof fn lemma_digit_char_val(c: char)
    requires
        is_digit(c),
    ensures
        0 <= digit_val(c) <= 9,
        digit_char(digit_val(c)) == c,
        c != '0' ==> digit_val(c) >= 1,
{
    vstd::utf8::char_u32_cast(c, c as u32);
    assert('0' as u32 == 48);
    vstd::utf8::char_u32_cast('0', '0' as u32);
    assert(48 + digit_val(c) == c as u32);
    assert(digit_char(digit_val(c)) == ((c as u32) as char));
}

proof fn lemma_digits_val_positive(s: Seq<char>, i: int, j: int)
    requires
        0 <= i < j <= s.len(),
        forall|k: int| i <= k < j ==> is_digit(s[k]),
        s[i] != '0',
    ensures
        digits_val(s, i, j) >= 1,
    decreases j - i,
{
    if j == i + 1 {
        assert(is_digit(s[i]));
        lemma_digit_char_val(s[i]);
    } else {
        lemma_digits_val_positive(s, i, j - 1);
        assert(is_digit(s[j - 1]));
        lemma_digit_char_val(s[j - 1]);
        assert(digits_val(s, i, j) == digits_val(s, i, j - 1) * 10 + digit_val(s[j - 1]));
    }
}

proof fn lemma_dec_of_val(s: Seq<char>, i: int, j: int)
    requires
        0 <= i < j <= s.len(),
        forall|k: int| i <= k < j ==> is_digit(s[k]),
        s[i] != '0' || j == i + 1,
    ensures
        dec_digits(digits_val(s, i, j)) =~= s.subrange(i, j),
    decreases j - i,
{
    lemma_digits_val_nonneg(s, i, j);
    if j == i + 1 {
        assert(is_digit(s[i]));
        lemma_digit_char_val(s[i]);
        assert(digits_val(s, i, i) == 0);
        assert(digits_val(s, i, j) == digit_val(s[i]));
        assert(dec_digits(digit_val(s[i])) =~= seq![s[i]]);
        assert(s.subrange(i, j) =~= seq![s[i]]);
    } else {
        let a = digits_val(s, i, j - 1);
        let d = digit_val(s[j - 1]);
        lemma_digits_val_positive(s, i, j - 1);
        assert(digits_val(s, i, j) == a * 10 + d);
        assert(a >= 1);
        assert(0 <= d <= 9);
        assert((a * 10 + d) / 10 == a && (a * 10 + d) % 10 == d) by (nonlinear_arith)
            requires
                a >= 1,
                0 <= d <= 9,
        ;
        assert(digits_val(s, i, j) >= 10);
        lemma_dec_of_val(s, i, j - 1);
        assert(is_digit(s[j - 1]));
        lemma_digit_char_val(s[j - 1]);
        assert(digit_char(d) == s[j - 1]);
        assert(dec_digits(digits_val(s, i, j)) =~= dec_digits(a).push(s[j - 1]));
        assert(s.subrange(i, j) =~= s.subrange(i, j - 1).push(s[j - 1]));
    }
}

proof fn lemma_parse_rest_renders(s: Seq<char>, i: int, acc: Seq<SegView>)
    requires
        0 <= i <= s.len(),
        parse_rest(s, i, acc) is Some,
        canonical_rest(s, i),
    ensures
        parse_rest(s, i, acc).unwrap().len() >= acc.len(),
        parse_rest(s, i, acc).unwrap().take(acc.len() as int) == acc,
        render_tail(parse_rest(s, i, acc).unwrap().skip(acc.len() as int)) == s.subrange(
            i,
            s.len() as int,
        ),
    decreases s.len() - i,
{
    let p = parse_rest(s, i, acc).unwrap();
    if i >= s.len() {
        assert(p == acc);
        assert(p.take(acc.len() as int) =~= acc);
        assert(p.skip(acc.len() as int) =~= Seq::<SegView>::empty());
        assert(render_tail(p.skip(acc.len() as int)) =~= s.subrange(i, s.len() as int));
    } else if s[i] == '[' {
        let (n, j) = parse_index_at(s, i).unwrap();
        lemma_parse_index_bounds(s, i);
        lemma_digits_end(s, i + 1);
        let jd = j - 1;
        let acc2 = acc.push(SegView::Index(n));
        lemma_parse_rest_renders(s, j, acc2);
        assert(Some(p) == parse_rest(s, j, acc2));
        assert(p.take(acc2.len() as int) == acc2);
        assert(p.take(acc.len() as int) =~= acc) by {
            assert(forall|k: int|
                0 <= k < acc.len() ==> p.take(acc.len() as int)[k] == acc2[k] && p.take(
                    acc2.len() as int,
                )[k] == acc2[k]);
        }
        assert(p.take(acc2.len() as int)[acc.len() as int] == acc2[acc.len() as int]);
        assert(p[acc.len() as int] == SegView::Index(n));
        assert(p.skip(acc.len() as int) =~= seq![SegView::Index(n)] + p.skip(acc2.len() as int));
        assert(render_tail(p.skip(acc.len() as int)) == render_tail_seg(SegView::Index(n))
            + render_tail(p.skip(acc2.len() as int))) by {
            let q = p.skip(acc.len() as int);
            assert(q.len() > 0);
            assert(q[0] == SegView::Index(n));
            assert(q.skip(1) =~= p.skip(acc2.len() as int));
        }
        // the index written in the input is the canonical rendering
        assert(s[i + 1] != '0' || jd == i + 2);
        lemma_digits_val_nonneg(s, i + 1, jd);
        lemma_dec_of_val(s, i + 1, jd);
        assert(dec_digits(n) =~= s.subrange(i + 1, jd));
        assert(s[jd] == ']');
        assert(render_tail_seg(SegView::Index(n)) =~= s.subrange(i, j));
        assert(render_tail(p.skip(acc.len() as int)) =~= s.subrange(i, s.len() as int)) by {
            assert(s.subrange(i, j) + s.subrange(j, s.len() as int) =~= s.subrange(
                i,
                s.len() as int,
            ));
        }
    } else {
        assert(s[i] == '.');
        let (f, j) = parse_field_at(s, i + 1).unwrap();
        lemma_parse_field_bounds(s, i + 1);
        let acc2 = acc.push(SegView::Field(f));
        lemma_parse_rest_renders(s, j, acc2);
        assert(Some(p) == parse_rest(s, j, acc2));
        assert(p.take(acc.len() as int) =~= acc) by {
            assert(forall|k: int|
                0 <= k < acc.len() ==> p.take(acc.len() as int)[k] == acc2[k] && p.take(
                    acc2.len() as int,
                )[k] == acc2[k]);
        }
        assert(p.take(acc2.len() as int)[acc.len() as int] == acc2[acc.len() as int]);
        assert(p[acc.len() as int] == SegView::Field(f));
        assert(p.skip(acc.len() as int) =~= seq![SegView::Field(f)] + p.skip(acc2.len() as int));
        assert(render_tail(p.skip(acc.len() as int)) == render_tail_seg(SegView::Field(f))
            + render_tail(p.skip(acc2.len() as int))) by {
            let q = p.skip(acc.len() as int);
            assert(q.len() > 0);
            assert(q[0] == SegView::Field(f));
            assert(q.skip(1) =~= p.skip(acc2.len() as int));
        }
        assert(f =~= s.subrange(i + 1, j)) by {
            if s[i + 1] == '"' {
                lemma_quote_end(s, i + 2);
            } else {
                lemma_bare_end(s, i + 1);
            }
        }
        assert(render_tail_seg(SegView::Field(f)) =~= s.subrange(i, j));
        assert(render_tail(p.skip(acc.len() as int)) =~= s.subrange(i, s.len() as int)) by {
            assert(s.subrange(i, j) + s.subrange(j, s.len() as int) =~= s.subrange(
                i,
                s.len() as int,
            ));
        }
    }
}

/// Path round trip: a path read by the parser from a string whose indices
/// are canonically written renders back to that very string. Rendering is
/// the formal inverse of parsing on every input the parser accepts, but
/// for index runs with leading zeros.
pub proof fn lemma_render_inverts_parse(s: Seq<char>, p: Seq<SegView>)
    requires
        parse_path(s) == Some(p),
        canonical_path(s),
    ensures
        render_path(p) == s,
{
    let (f, j) = parse_field_at(s, 0).unwrap();
    lemma_parse_field_bounds(s, 0);
    lemma_parse_rest_renders(s, j, seq![SegView::Field(f)]);
    assert(Some(p) == parse_rest(s, j, seq![SegView::Field(f)]));
    assert(p.take(1)[0] == SegView::Field(f));
    assert(p[0] == SegView::Field(f));
    assert(p.len() >= 1);
    assert(render_tail(p.skip(1)) == s.subrange(j, s.len() as int));
    assert(f =~= s.subrange(0, j)) by {
        if s[0] == '"' {
            lemma_quote_end(s, 1);
        } else {
            lemma_bare_end(s, 0);
        }
    }
    assert(render_path(p) == f + render_tail(p.skip(1)));
    assert(render_path(p) =~= s) by {
        assert(s.subrange(0, j) + s.subrange(j, s.len() as int) =~= s.subrange(
            0,
            s.len() as int,
        ));
        assert(s.subrange(0, s.len() as int) =~= s);
    }
}

proof fn lemma_render_tail_snoc(q: Seq<SegView>, x: SegView)
    ensures
        render_tail(q.push(x)) == render_tail(q) + render_tail_seg(x),
    decreases q.len(),
{
    if q.len() == 0 {
        assert(q.push(x).skip(1) =~= Seq::<SegView>::empty());
        assert(q.push(x)[0] == x);
        assert(render_tail(q.push(x)) == render_tail_seg(x) + render_tail(
            Seq::<SegView>::empty(),
        ));
        assert(render_tail(Seq::<SegView>::empty()) == Seq::<char>::empty());
        assert(render_tail(q.push(x)) =~= render_tail(q) + render_tail_seg(x));
    } else {
        assert(q.push(x).skip(1) =~= q.skip(1).push(x));
        lemma_render_tail_snoc(q.skip(1), x);
        assert(render_tail(q.push(x)) =~= render_tail(q) + render_tail_seg(x));
    }
}

pub proof fn lemma_render_take_snoc(p: Seq<SegView>, k: int)
    requires
        0 <= k < p.len(),
    ensures
        k == 0 ==> render_path(p.take(1)) == render_first(p[0]),
        k > 0 ==> render_path(p.take(k + 1)) == render_path(p.take(k)) + render_tail_seg(p[k]),
{
    if k == 0 {
        assert(p.take(1)[0] == p[0]);
        assert(p.take(1).skip(1) =~= Seq::<SegView>::empty());
        assert(render_path(p.take(1)) =~= render_first(p[0]));
    } else {
        assert(p.take(k + 1) =~= p.take(k).push(p[k]));
        assert(p.take(k + 1).skip(1) =~= p.take(k).skip(1).push(p[k]));
        lemma_render_tail_snoc(p.take(k).skip(1), p[k]);
        assert(p.take(k + 1)[0] == p[0]);
        assert(p.take(k)[0] == p[0]);
        assert(render_path(p.take(k + 1)) =~= render_path(p.take(k)) + render_tail_seg(p[k]));
    }
}

/// Rendering one more segment appends its tail form, or is the first
/// segment's own form.
pub proof fn lemma_render_push(p: Seq<SegView>, x: SegView)
    ensures
        p.len() == 0 ==> render_path(p.push(x)) == render_first(x),
        p.len() > 0 ==> render_path(p.push(x)) == render_path(p) + render_tail_seg(x),
{
    let q = p.push(x);
    lemma_render_take_snoc(q, p.len() as int);
    assert(q.take((p.len() + 1) as int) =~= q);
    assert(q.take(p.len() as int) =~= p);
    assert(q[p.len() as int] == x);
}

/// The decimal digit as a one-character string.
fn digit_str(d: usize) -> (r: &'static str)
    requires
        d < 10,
    ensures
        r@ =~= seq![digit_char(d as int)],
{
    let r: &'static str = match d {
        0 => "0",
        1 => "1",
        2 => "2",
        3 => "3",
        4 => "4",
        5 => "5",
        6 => "6",
        7 => "7",
        8 => "8",
        _ => "9",
    };
    proof {
        reveal_strlit("0");
        reveal_strlit("1");
        reveal_strlit("2");
        reveal_strlit("3");
        reveal_strlit("4");
        reveal_strlit("5");
        reveal_strlit("6");
        reveal_strlit("7");
        reveal_strlit("8");
        reveal_strlit("9");
        vstd::utf8::char_u32_cast('0', '0' as u32);
        vstd::utf8::char_u32_cast('1', '1' as u32);
        vstd::utf8::char_u32_cast('2', '2' as u32);
        vstd::utf8::char_u32_cast('3', '3' as u32);
        vstd::utf8::char_u32_cast('4', '4' as u32);
        vstd::utf8::char_u32_cast('5', '5' as u32);
        vstd::utf8::char_u32_cast('6', '6' as u32);
        vstd::utf8::char_u32_cast('7', '7' as u32);
        vstd::utf8::char_u32_cast('8', '8' as u32);
        vstd::utf8::char_u32_cast('9', '9' as u32);
    }
    r
}

/// Writes the canonical decimal form of `n` onto the end of `out`.
pub fn append_decimal(out: &mut String, n: usize)
    ensures
        final(out)@ == old(out)@ + dec_digits(n as int),
    decreases n,
{
    if n < 10 {
        out.append(digit_str(n));
        proof {
            assert(final(out)@ =~= old(out)@ + dec_digits(n as int));
        }
    } else {
        append_decimal(out, n / 10);
        out.append(digit_str(n % 10));
        proof {
            assert(final(out)@ =~= old(out)@ + dec_digits(n as int));
        }
    }
}

impl Lookup {
    /// The canonical textual form of the path: fields joined by `'.'`,
    /// each index written as `[i]` with nothing before the bracket.
    pub fn render(&self) -> (r: String)
        ensures
            r@ == render_path(self@),
    {
        let mut out = String::new();
        let n = self.len();
        let mut i: usize = 0;
        while i < n
            invariant
                i <= n,
                n == self@.len(),
                out@ == render_path(self@.take(i as int)),
            decreases n - i,
        {
            let ghost pre = out@;
            match self.get(i) {
                Segment::Field(name) => {
                    if i > 0 {
                        out.append(".");
                        proof {
                            reveal_strlit(".");
                        }
                    }
                    out.append(name.as_str());
                    proof {
                        lemma_render_take_snoc(self@, i as int);
                        if i > 0 {
                            assert(out@ =~= pre + render_tail_seg(self@[i as int]));
                        } else {
                            assert(out@ =~= render_first(self@[0]));
                            assert(render_path(self@.take(0)) =~= Seq::<char>::empty());
                        }
                    }
                },
                Segment::Index(v) => {
                    out.append("[");
                    append_decimal(&mut out, *v);
                    out.append("]");
                    proof {
                        reveal_strlit("[");
                        reveal_strlit("]");
                        lemma_render_take_snoc(self@, i as int);
                        assert(self@[i as int] is Index);
                        if i > 0 {
                            assert(out@ =~= pre + render_tail_seg(self@[i as int]));
                        } else {
                            assert(out@ =~= render_first(self@[0]));
                            assert(render_path(self@.take(0)) =~= Seq::<char>::empty());
                        }
                    }
                },
            }
            i = i + 1;
        }
        proof {
            assert(self@.take(n as int) =~= self@);
        }
        out
    }
}

fn reserved_char(c: char) -> (r: bool)
    ensures
        r == is_reserved(c),
{
    c == '.' || c == '[' || c == '"'
}

fn digit_char_test(c: char) -> (r: bool)
    ensures
        r == is_digit(c),
{
    let u = c as u32;
    48 <= u && u <= 57
}

fn scan_bare_end(s: &str, i: usize, n: usize) -> (j: usize)
    requires
        i <= n,
        n == s@.len(),
    ensures
        j == bare_end(s@, i as int),
        i <= j <= n,
{
    let mut j = i;
    loop
        invariant
            i <= j <= n,
            n == s@.len(),
            bare_end(s@, i as int) == bare_end(s@, j as int),
        decreases n - j,
    {
        if j >= n {
            return j;
        }
        let c = s.get_char(j);
        if reserved_char(c) {
            return j;
        }
        j = j + 1;
    }
}

fn scan_quote_end(s: &str, i: usize, n: usize) -> (j: usize)
    requires
        i <= n,
        n == s@.len(),
    ensures
        j == quote_end(s@, i as int),
        i <= j <= n,
{
    let mut j = i;
    loop
        invariant
            i <= j <= n,
            n == s@.len(),
            quote_end(s@, i as int) == quote_end(s@, j as int),
        decreases n - j,
    {
        if j >= n {
            return j;
        }
        let c = s.get_char(j);
        if c == '"' {
            return j;
        }
        j = j + 1;
    }
}

fn scan_digits_end(s: &str, i: usize, n: usize) -> (j: usize)
    requires
        i <= n,
        n == s@.len(),
    ensures
        j == digits_end(s@, i as int),
        i <= j <= n,
{
    let mut j = i;
    loop
        invariant
            i <= j <= n,
            n == s@.len(),
            digits_end(s@, i as int) == digits_end(s@, j as int),
        decreases n - j,
    {
        if j >= n {
            return j;
        }
        let c = s.get_char(j);
        if !digit_char_test(c) {
            return j;
        }
        j = j + 1;
    }
}

proof fn lemma_digits_val_nonneg(s: Seq<char>, i: int, j: int)
    requires
        0 <= i <= j <= s.len(),
        forall|k: int| i <= k < j ==> is_digit(s[k]),
    ensures
        digits_val(s, i, j) >= 0,
    decreases j - i,
{
    if j > i {
        lemma_digits_val_nonneg(s, i, j - 1);
    }
}

proof fn lemma_digits_val_grows(s: Seq<char>, i: int, j: int, j2: int)
    requires
        0 <= i <= j <= j2 <= s.len(),
        forall|k: int| i <= k < j2 ==> is_digit(s[k]),
    ensures
        digits_val(s, i, j) <= digits_val(s, i, j2),
    decreases j2 - j,
{
    if j < j2 {
        lemma_digits_val_grows(s, i, j, j2 - 1);
        lemma_digits_val_nonneg(s, i, j2 - 1);
    }
}

/// The value of the digit run `s[i..j)`, or nothing where it does not fit
/// a machine word.
fn read_digits(s: &str, i: usize, j: usize) -> (r: Option<usize>)
    requires
        i <= j <= s@.len(),
        forall|k: int| i <= k < j ==> is_digit(s@[k]),
    ensures
        digits_val(s@, i as int, j as int) <= usize::MAX as int ==> (r matches Some(v) && v
            == digits_val(s@, i as int, j as int)),
        digits_val(s@, i as int, j as int) > usize::MAX as int ==> r is None,
{
    let mut acc: usize = 0;
    let mut k = i;
    while k < j
        invariant
            i <= k <= j <= s@.len(),
            forall|m: int| i <= m < j ==> is_digit(s@[m]),
            acc == digits_val(s@, i as int, k as int),
        decreases j - k,
    {
        let c = s.get_char(k);
        proof {
            assert(is_digit(s@[k as int]));
        }
        let d = (c as u32 - 48) as usize;
        let shifted = match acc.checked_mul(10) {
            Some(x) => x,
            None => {
                proof {
                    lemma_digits_val_nonneg(s@, i as int, k as int);
                    assert(digits_val(s@, i as int, (k + 1) as int) == acc * 10 + digit_val(
                        s@[k as int],
                    ));
                    lemma_digits_val_grows(s@, i as int, (k + 1) as int, j as int);
                }
                return None;
            },
        };
        let next = match shifted.checked_add(d) {
            Some(x) => x,
            None => {
                proof {
                    lemma_digits_val_nonneg(s@, i as int, k as int);
                    lemma_digits_val_grows(s@, i as int, (k + 1) as int, j as int);
                }
                return None;
            },
        };
        acc = next;
        k = k + 1;
    }
    Some(acc)
}

/// One field read from position `i`, as an owned segment name.
fn read_field(s: &str, i: usize, n: usize) -> (r: Option<(String, usize)>)
    requires
        i <= n,
        n == s@.len(),
    ensures
        match parse_field_at(s@, i as int) {
            Some((f, j)) => r matches Some(p) && p.0@ == f && p.1 == j && i < p.1 <= n,
            None => r is None,
        },
{
    if i >= n {
        return None;
    }
    let c = s.get_char(i);
    if c == '"' {
        let j = scan_quote_end(s, i + 1, n);
        if j < n {
            let name = s.substring_char(i, j + 1).to_owned();
            Some((name, j + 1))
        } else {
            None
        }
    } else {
        let j = scan_bare_end(s, i, n);
        if j > i {
            let name = s.substring_char(i, j).to_owned();
            Some((name, j))
        } else {
            None
        }
    }
}

/// One bracketed index read from position `i`, which holds `'['`.
fn read_index(s: &str, i: usize, n: usize) -> (r: Option<(usize, usize)>)
    requires
        i < n,
        n == s@.len(),
        s@[i as int] == '[',
    ensures
        match parse_index_at(s@, i as int) {
            Some((v, j)) => r matches Some(p) && p.0 == v && p.1 == j && i < p.1 <= n,
            None => r is None,
        },
{
    let j = scan_digits_end(s, i + 1, n);
    proof {
        lemma_digits_end(s@, (i + 1) as int);
    }
    if j > i + 1 && j < n {
        let c = s.get_char(j);
        if c == ']' {
            match read_digits(s, i + 1, j) {
                Some(v) => Some((v, j + 1)),
                None => None,
            }
        } else {
            None
        }
    } else {
        None
    }
}

impl Lookup {
    /// Parses a textual path into its flattened segment sequence.
    ///
    /// The empty string fails with [`LookupError::EmptyPath`]; an input
    /// that does not follow the grammar, or whose index does not fit a
    /// machine word, fails with [`LookupError::InvalidPath`].
    pub fn from_str(s: &str) -> (r: Result<Lookup, LookupError>)
        ensures
            s@.len() == 0 ==> r == Err::<Lookup, LookupError>(LookupError::EmptyPath),
            s@.len() > 0 ==> match parse_path(s@) {
                Some(p) => r matches Ok(l) && l@ == p && l@.len() >= 1,
                None => r == Err::<Lookup, LookupError>(LookupError::InvalidPath),
            },
    {
        let n = s.unicode_len();
        if n == 0 {
            return Err(LookupError::EmptyPath);
        }
        let (first, start) = match read_field(s, 0, n) {
            Some(p) => p,
            None => {
                return Err(LookupError::InvalidPath);
            },
        };
        let mut segments: Vec<Segment> = Vec::new();
        segments.push(Segment::Field(first));
        let mut i = start;
        proof {
            assert(views_of(segments@) =~= seq![
                SegView::Field(parse_field_at(s@, 0).unwrap().0),
            ]);
        }
        while i < n
            invariant
                0 < i <= n,
                n == s@.len(),
                segments@.len() >= 1,
                parse_path(s@) == parse_rest(s@, i as int, views_of(segments@)),
            decreases n - i,
        {
            let ghost pre = segments@;
            let c = s.get_char(i);
            if c == '[' {
                match read_index(s, i, n) {
                    Some((v, j)) => {
                        segments.push(Segment::Index(v));
                        proof {
                            assert(views_of(segments@) =~= views_of(pre).push(SegView::Index(v as int)));
                        }
                        i = j;
                    },
                    None => {
                        return Err(LookupError::InvalidPath);
                    },
                }
            } else if c == '.' {
                match read_field(s, i + 1, n) {
                    Some((f, j)) => {
                        let ghost fv = f@;
                        segments.push(Segment::Field(f));
                        proof {
                            assert(views_of(segments@) =~= views_of(pre).push(SegView::Field(fv)));
                        }
                        i = j;
                    },
                    None => {
                        return Err(LookupError::InvalidPath);
                    },
                }
            } else {
                return Err(LookupError::InvalidPath);
            }
        }
        Ok(Lookup::new(segments))
    }
}

} // verus!

