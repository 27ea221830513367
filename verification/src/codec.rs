//! The persistence document: a JSON object mapping each visited state to
//! its list of `{"next_state": ..., "count": ...}` records, written without
//! extra whitespace. The writer and the parser are both verified, and
//! parsing a written document is proved to give the table back.
//!
//! State strings are carried verbatim between quotes, so the format holds
//! exactly the strings whose characters need no JSON escape: no quote, no
//! backslash, no control character.

use vstd::prelude::*;

use crate::menace::{beads_view, table_bounded, Bead, BeadV, TableV};

verus! {

/// A character the document can carry verbatim inside quotes.
pub open spec fn plain_char(c: char) -> bool {
    c != '"' && c != '\\' && (c as u32) >= 32
}

/// A string the document can carry verbatim.
pub open spec fn plain_str(s: Seq<char>) -> bool {
    forall|i: int| 0 <= i < s.len() ==> plain_char(#[trigger] s[i])
}

/// Whether a digit character stands at `c`.
pub open spec fn is_digit(c: char) -> bool {
    48 <= c as u32 && c as u32 <= 57
}

/// The value of a digit character.
pub open spec fn digit_val(c: char) -> nat {
    (c as u32 - 48) as nat
}

/// The character of a digit value below ten.
pub open spec fn digit_char(d: nat) -> char {
    if d == 0 {
        '0'
    } else if d == 1 {
        '1'
    } else if d == 2 {
        '2'
    } else if d == 3 {
        '3'
    } else if d == 4 {
        '4'
    } else if d == 5 {
        '5'
    } else if d == 6 {
        '6'
    } else if d == 7 {
        '7'
    } else if d == 8 {
        '8'
    } else {
        '9'
    }
}

/// The decimal form of a number, most significant digit first.
pub open spec fn ser_nat(v: nat) -> Seq<char>
    decreases v,
{
    if v < 10 {
        seq![digit_char(v)]
    } else {
        ser_nat(v / 10).push(digit_char(v % 10))
    }
}

/// A quoted string: the characters between two quote marks, verbatim.
pub open spec fn ser_str(s: Seq<char>) -> Seq<char> {
    seq!['"'] + s + seq!['"']
}

/// The first position at or after `i` that does not hold a digit.
pub open spec fn digits_end(s: Seq<char>, i: int) -> int
    decreases s.len() - i,
{
    if 0 <= i && i < s.len() && is_digit(s[i]) {
        digits_end(s, i + 1)
    } else {
        i
    }
}

/// The value of the digit run `[i, j)`, folded left; values past the
/// machine range stick at one above it.
pub open spec fn digits_val_c(s: Seq<char>, i: int, j: int) -> nat
    decreases j - i,
{
    if j <= i {
        0
    } else {
        let prev = digits_val_c(s, i, j - 1);
        let v = prev * 10 + digit_val(s[j - 1]);
        if v > usize::MAX as nat {
            (usize::MAX as nat) + 1
        } else {
            v
        }
    }
}

/// Parses a machine-range number at `i`: the digit run must be non-empty
/// and its value must fit.
pub open spec fn p_nat(s: Seq<char>, i: int) -> Option<(nat, int)> {
    let j = digits_end(s, i);
    if j == i {
        None
    } else {
        let v = digits_val_c(s, i, j);
        if v > usize::MAX as nat {
            None
        } else {
            Some((v, j))
        }
    }
}

/// The first position at or after `i` that cannot stand inside a quoted
/// string.
pub open spec fn str_end(s: Seq<char>, i: int) -> int
    decreases s.len() - i,
{
    if 0 <= i && i < s.len() && plain_char(s[i]) {
        str_end(s, i + 1)
    } else {
        i
    }
}

/// Parses a quoted string at `i`: an opening quote, plain characters, a
/// closing quote. Escapes are not part of the format.
pub open spec fn p_qstr(s: Seq<char>, i: int) -> Option<(Seq<char>, int)> {
    if 0 <= i && i < s.len() && s[i] == '"' {
        let j = str_end(s, i + 1);
        if j < s.len() && s[j] == '"' {
            Some((s.subrange(i + 1, j), j + 1))
        } else {
            None
        }
    } else {
        None
    }
}

/// Parses the fixed text `lit` at `i`.
pub open spec fn p_lit(s: Seq<char>, i: int, lit: Seq<char>) -> Option<int> {
    if 0 <= i && i + lit.len() <= s.len() && s.subrange(i, i + lit.len()) == lit {
        Some(i + lit.len())
    } else {
        None
    }
}

/// The opening of a bead record, up to its successor string.
pub open spec fn lit_bead_open() -> Seq<char> {
    "{\"next_state\":"@
}

/// The middle of a bead record, up to its count.
pub open spec fn lit_count() -> Seq<char> {
    ",\"count\":"@
}

/// One bead record: its successor string and its count, under fixed
/// field names.
pub open spec fn ser_bead(b: BeadV) -> Seq<char> {
    lit_bead_open() + ser_str(b.next_state) + lit_count() + ser_nat(b.count) + seq!['}']
}

/// Parses one bead record at `i`.
pub open spec fn p_bead(s: Seq<char>, i: int) -> Option<(BeadV, int)> {
    match p_lit(s, i, lit_bead_open()) {
        None => None,
        Some(i1) => match p_qstr(s, i1) {
            None => None,
            Some((k, i2)) => match p_lit(s, i2, lit_count()) {
                None => None,
                Some(i3) => match p_nat(s, i3) {
                    None => None,
                    Some((v, i4)) => if i4 < s.len() && s[i4] == '}' {
                        Some((BeadV { next_state: k, count: v }, i4 + 1))
                    } else {
                        None
                    },
                },
            },
        },
    }
}

/// The bead records after the first one, each preceded by a comma.
pub open spec fn ser_beads_rest(bs: Seq<BeadV>) -> Seq<char>
    decreases bs.len(),
{
    if bs.len() == 0 {
        Seq::empty()
    } else {
        seq![','] + ser_bead(bs[0]) + ser_beads_rest(bs.skip(1))
    }
}

/// A list of bead records between brackets, separated by commas.
pub open spec fn ser_beads(bs: Seq<BeadV>) -> Seq<char> {
    if bs.len() == 0 {
        seq!['[', ']']
    } else {
        seq!['['] + ser_bead(bs[0]) + ser_beads_rest(bs.skip(1)) + seq![']']
    }
}

/// Parses the bead records after the first one, up to the closing bracket.
pub open spec fn p_beads_rest(s: Seq<char>, i: int) -> Option<(Seq<BeadV>, int)>
    decreases s.len() - i,
{
    if 0 <= i && i < s.len() && s[i] == ']' {
        Some((Seq::empty(), i + 1))
    } else if 0 <= i && i < s.len() && s[i] == ',' {
        match p_bead(s, i + 1) {
            None => None,
            Some((b, j)) => if i + 1 < j <= s.len() {
                match p_beads_rest(s, j) {
                    None => None,
                    Some((bs, j2)) => Some((seq![b] + bs, j2)),
                }
            } else {
                None
            },
        }
    } else {
        None
    }
}

/// Parses a bracketed list of bead records at `i`.
pub open spec fn p_beads(s: Seq<char>, i: int) -> Option<(Seq<BeadV>, int)> {
    if 0 <= i && i < s.len() && s[i] == '[' {
        if i + 1 < s.len() && s[i + 1] == ']' {
            Some((Seq::empty(), i + 2))
        } else {
            match p_bead(s, i + 1) {
                None => None,
                Some((b, j)) => if i + 1 < j <= s.len() {
                    match p_beads_rest(s, j) {
                        None => None,
                        Some((bs, j2)) => Some((seq![b] + bs, j2)),
                    }
                } else {
                    None
                },
            }
        }
    } else {
        None
    }
}

/// Every successor string of these beads is plain.
pub open spec fn beads_plain(bs: Seq<BeadV>) -> bool {
    forall|j: int| 0 <= j < bs.len() ==> plain_str((#[trigger] bs[j]).next_state)
}

/// Every count of these beads fits the machine.
pub open spec fn beads_bounded(bs: Seq<BeadV>) -> bool {
    forall|j: int| 0 <= j < bs.len() ==> (#[trigger] bs[j]).count <= usize::MAX as nat
}

/// A piece cut from a known stretch of text equals the matching piece of
/// the pattern.
proof fn lemma_slice_eq(s: Seq<char>, i: int, l: int, pat: Seq<char>, a: int, sub: Seq<char>)
    requires
        0 <= i,
        i + l <= s.len(),
        pat.len() == l,
        s.subrange(i, i + l) == pat,
        0 <= a,
        a + sub.len() <= l,
        pat.subrange(a, a + sub.len()) == sub,
    ensures
        s.subrange(i + a, i + a + sub.len()) == sub,
{
    assert forall|w: int| 0 <= w < sub.len() implies #[trigger] s.subrange(
        i + a,
        i + a + sub.len(),
    )[w] == sub[w] by {
        assert(s[i + a + w] == s.subrange(i, i + l)[a + w]);
        assert(pat[a + w] == pat.subrange(a, a + sub.len())[w]);
    }
    assert(s.subrange(i + a, i + a + sub.len()) =~= sub);
}

/// A digit scan neither backs up nor leaves the text.
proof fn lemma_digits_end_bounds(s: Seq<char>, i: int)
    requires
        0 <= i <= s.len(),
    ensures
        i <= digits_end(s, i) <= s.len(),
    decreases s.len() - i,
{
    if i < s.len() && is_digit(s[i]) {
        lemma_digits_end_bounds(s, i + 1);
    }
}

/// A string scan neither backs up nor leaves the text.
proof fn lemma_str_end_bounds(s: Seq<char>, i: int)
    requires
        0 <= i <= s.len(),
    ensures
        i <= str_end(s, i) <= s.len(),
    decreases s.len() - i,
{
    if i < s.len() && plain_char(s[i]) {
        lemma_str_end_bounds(s, i + 1);
    }
}

/// A digit scan from `a` stops exactly at `b` when `[a, b)` holds digits
/// and `b` does not.
proof fn lemma_digits_end_range(s: Seq<char>, a: int, b: int)
    requires
        0 <= a <= b <= s.len(),
        forall|w: int| a <= w < b ==> is_digit(#[trigger] s[w]),
        b == s.len() || !is_digit(s[b]),
    ensures
        digits_end(s, a) == b,
    decreases b - a,
{
    if a < b {
        lemma_digits_end_range(s, a + 1, b);
    }
}

/// A string scan from `a` stops exactly at `b` when `[a, b)` is plain
/// and `b` is not.
proof fn lemma_str_end_range(s: Seq<char>, a: int, b: int)
    requires
        0 <= a <= b <= s.len(),
        forall|w: int| a <= w < b ==> plain_char(#[trigger] s[w]),
        b == s.len() || !plain_char(s[b]),
    ensures
        str_end(s, a) == b,
    decreases b - a,
{
    if a < b {
        lemma_str_end_range(s, a + 1, b);
    }
}

/// Every character the decimal writer emits is a digit.
proof fn lemma_ser_nat_digits(v: nat)
    ensures
        ser_nat(v).len() >= 1,
        forall|w: int| 0 <= w < ser_nat(v).len() ==> is_digit(#[trigger] ser_nat(v)[w]),
    decreases v,
{
    if v >= 10 {
        lemma_ser_nat_digits(v / 10);
    }
}

/// The digit run of a written number folds back to its value.
proof fn lemma_digits_val_of_ser(s: Seq<char>, i: int, v: nat)
    requires
        v <= usize::MAX as nat,
        0 <= i,
        i + ser_nat(v).len() <= s.len(),
        s.subrange(i, i + ser_nat(v).len()) == ser_nat(v),
    ensures
        digits_val_c(s, i, i + ser_nat(v).len()) == v,
    decreases v,
{
    let l = ser_nat(v).len() as int;
    if v < 10 {
        assert(s[i] == ser_nat(v)[0]);
        assert(digits_val_c(s, i, i) == 0);
    } else {
        assert(ser_nat(v) == ser_nat(v / 10).push(digit_char(v % 10)));
        let lp = ser_nat(v / 10).len() as int;
        assert(s.subrange(i, i + lp) =~= ser_nat(v / 10)) by {
            assert forall|w: int| 0 <= w < lp implies #[trigger] s.subrange(i, i + lp)[w]
                == ser_nat(v / 10)[w] by {
                assert(s[i + w] == s.subrange(i, i + l)[w]);
            }
        }
        lemma_digits_val_of_ser(s, i, v / 10);
        assert(s[i + l - 1] == s.subrange(i, i + l)[l - 1]);
        assert(s[i + l - 1] == digit_char(v % 10));
        vstd::arithmetic::div_mod::lemma_fundamental_div_mod(v as int, 10);
        assert(digits_val_c(s, i, i + l) == (v / 10) * 10 + digit_val(digit_char(v % 10)) || (v
            / 10) * 10 + digit_val(digit_char(v % 10)) > usize::MAX as nat);
    }
}

/// Parsing a written number gives the value back, provided no digit
/// follows it in the surrounding text.
proof fn lemma_p_nat_of_ser(s: Seq<char>, i: int, v: nat)
    requires
        v <= usize::MAX as nat,
        0 <= i,
        i + ser_nat(v).len() <= s.len(),
        s.subrange(i, i + ser_nat(v).len()) == ser_nat(v),
        i + ser_nat(v).len() == s.len() || !is_digit(s[i + ser_nat(v).len()]),
    ensures
        p_nat(s, i) == Some((v, i + ser_nat(v).len())),
{
    let l = ser_nat(v).len() as int;
    lemma_ser_nat_digits(v);
    assert forall|w: int| i <= w < i + l implies is_digit(#[trigger] s[w]) by {
        assert(s[w] == s.subrange(i, i + l)[w - i]);
    }
    lemma_digits_end_range(s, i, i + l);
    lemma_digits_val_of_ser(s, i, v);
}

/// Parsing a written quoted string gives the string back.
proof fn lemma_p_qstr_of_ser(s: Seq<char>, i: int, k: Seq<char>)
    requires
        plain_str(k),
        0 <= i,
        i + k.len() + 2 <= s.len(),
        s.subrange(i, i + k.len() + 2) == ser_str(k),
    ensures
        p_qstr(s, i) == Some((k, i + k.len() + 2)),
{
    let l = k.len() as int;
    assert(s[i] == s.subrange(i, i + l + 2)[0]);
    assert(s[i + l + 1] == s.subrange(i, i + l + 2)[l + 1]);
    assert(s[i] == '"');
    assert(s[i + l + 1] == '"');
    assert forall|w: int| i + 1 <= w < i + 1 + l implies plain_char(#[trigger] s[w]) by {
        assert(s[w] == s.subrange(i, i + l + 2)[w - i]);
        assert(s[w] == k[w - i - 1]);
    }
    assert(!plain_char('"'));
    lemma_str_end_range(s, i + 1, i + 1 + l);
    assert(s.subrange(i + 1, i + 1 + l) =~= k) by {
        assert forall|w: int| 0 <= w < l implies s.subrange(i + 1, i + 1 + l)[w] == k[w] by {
            assert(s[i + 1 + w] == s.subrange(i, i + l + 2)[w + 1]);
        }
    }
}

/// Parsing a written bead record gives the bead back.
proof fn lemma_p_bead_of_ser(s: Seq<char>, i: int, b: BeadV)
    requires
        plain_str(b.next_state),
        b.count <= usize::MAX as nat,
        0 <= i,
        i + ser_bead(b).len() <= s.len(),
        s.subrange(i, i + ser_bead(b).len()) == ser_bead(b),
    ensures
        p_bead(s, i) == Some((b, i + ser_bead(b).len())),
{
    let pat = ser_bead(b);
    let l = pat.len() as int;
    let la = lit_bead_open().len() as int;
    let k = b.next_state;
    let lk = k.len() as int + 2;
    let lc = lit_count().len() as int;
    let ln = ser_nat(b.count).len() as int;
    assert(l == la + lk + lc + ln + 1);
    assert(pat.subrange(0, la) =~= lit_bead_open());
    lemma_slice_eq(s, i, l, pat, 0, lit_bead_open());
    assert(pat.subrange(la, la + lk) =~= ser_str(k));
    lemma_slice_eq(s, i, l, pat, la, ser_str(k));
    lemma_p_qstr_of_ser(s, i + la, k);
    assert(pat.subrange(la + lk, la + lk + lc) =~= lit_count());
    lemma_slice_eq(s, i, l, pat, la + lk, lit_count());
    assert(pat.subrange(la + lk + lc, la + lk + lc + ln) =~= ser_nat(b.count));
    lemma_slice_eq(s, i, l, pat, la + lk + lc, ser_nat(b.count));
    assert(s[i + l - 1] == s.subrange(i, i + l)[l - 1]);
    assert(s[i + l - 1] == '}');
    assert(!is_digit('}'));
    lemma_p_nat_of_ser(s, i + la + lk + lc, b.count);
}

/// Parsing the written tail of a bead list, bracket included, gives the
/// remaining beads back.
proof fn lemma_p_beads_rest_of_ser(s: Seq<char>, i: int, bs: Seq<BeadV>)
    requires
        beads_plain(bs),
        beads_bounded(bs),
        0 <= i,
        i + ser_beads_rest(bs).len() + 1 <= s.len(),
        s.subrange(i, i + ser_beads_rest(bs).len() + 1) == ser_beads_rest(bs) + seq![']'],
    ensures
        p_beads_rest(s, i) == Some((bs, i + ser_beads_rest(bs).len() + 1)),
    decreases bs.len(),
{
    let pat = ser_beads_rest(bs) + seq![']'];
    let l = pat.len() as int;
    assert(s[i] == s.subrange(i, i + l)[0]);
    if bs.len() == 0 {
        assert(s[i] == ']');
    } else {
        let lb = ser_bead(bs[0]).len() as int;
        let lr = ser_beads_rest(bs.skip(1)).len() as int;
        assert(l == 1 + lb + lr + 1);
        assert(s[i] == ',');
        assert(pat.subrange(1, 1 + lb) =~= ser_bead(bs[0]));
        lemma_slice_eq(s, i, l, pat, 1, ser_bead(bs[0]));
        lemma_p_bead_of_ser(s, i + 1, bs[0]);
        assert(beads_plain(bs.skip(1)) && beads_bounded(bs.skip(1))) by {
            assert forall|w: int| 0 <= w < bs.skip(1).len() implies plain_str(
                (#[trigger] bs.skip(1)[w]).next_state,
            ) && bs.skip(1)[w].count <= usize::MAX as nat by {
                assert(bs.skip(1)[w] == bs[w + 1]);
            }
        }
        assert(pat.subrange(1 + lb, l) =~= ser_beads_rest(bs.skip(1)) + seq![']']);
        lemma_slice_eq(s, i, l, pat, 1 + lb, ser_beads_rest(bs.skip(1)) + seq![']']);
        lemma_p_beads_rest_of_ser(s, i + 1 + lb, bs.skip(1));
        assert(seq![bs[0]] + bs.skip(1) =~= bs);
    }
}

/// Parsing a written bead list gives the beads back.
proof fn lemma_p_beads_of_ser(s: Seq<char>, i: int, bs: Seq<BeadV>)
    requires
        beads_plain(bs),
        beads_bounded(bs),
        0 <= i,
        i + ser_beads(bs).len() <= s.len(),
        s.subrange(i, i + ser_beads(bs).len()) == ser_beads(bs),
    ensures
        p_beads(s, i) == Some((bs, i + ser_beads(bs).len())),
{
    let pat = ser_beads(bs);
    let l = pat.len() as int;
    assert(s[i] == s.subrange(i, i + l)[0]);
    assert(s[i] == '[');
    if bs.len() == 0 {
        assert(s[i + 1] == s.subrange(i, i + l)[1]);
        assert(s[i + 1] == ']');
    } else {
        let lb = ser_bead(bs[0]).len() as int;
        let lr = ser_beads_rest(bs.skip(1)).len() as int;
        assert(l == 1 + lb + lr + 1);
        reveal_strlit("{\"next_state\":");
        assert(pat[1] == lit_bead_open()[0]);
        assert(s[i + 1] == s.subrange(i, i + l)[1]);
        assert(s[i + 1] == '{');
        assert(pat.subrange(1, 1 + lb) =~= ser_bead(bs[0]));
        lemma_slice_eq(s, i, l, pat, 1, ser_bead(bs[0]));
        lemma_p_bead_of_ser(s, i + 1, bs[0]);
        assert(beads_plain(bs.skip(1)) && beads_bounded(bs.skip(1))) by {
            assert forall|w: int| 0 <= w < bs.skip(1).len() implies plain_str(
                (#[trigger] bs.skip(1)[w]).next_state,
            ) && bs.skip(1)[w].count <= usize::MAX as nat by {
                assert(bs.skip(1)[w] == bs[w + 1]);
            }
        }
        assert(pat.subrange(1 + lb, l) =~= ser_beads_rest(bs.skip(1)) + seq![']']);
        lemma_slice_eq(s, i, l, pat, 1 + lb, ser_beads_rest(bs.skip(1)) + seq![']']);
        lemma_p_beads_rest_of_ser(s, i + 1 + lb, bs.skip(1));
        assert(seq![bs[0]] + bs.skip(1) =~= bs);
    }
}

/// One table entry: the state string, a colon, and its bead list.
pub open spec fn ser_entry(e: (Seq<char>, Seq<BeadV>)) -> Seq<char> {
    ser_str(e.0) + seq![':'] + ser_beads(e.1)
}

/// The table entries after the first one, each preceded by a comma.
pub open spec fn ser_table_rest(t: TableV) -> Seq<char>
    decreases t.len(),
{
    if t.len() == 0 {
        Seq::empty()
    } else {
        seq![','] + ser_entry(t[0]) + ser_table_rest(t.skip(1))
    }
}

/// The whole persistence document: every entry of the table between
/// braces, in table order, separated by commas.
pub open spec fn doc_of(t: TableV) -> Seq<char> {
    if t.len() == 0 {
        seq!['{', '}']
    } else {
        seq!['{'] + ser_entry(t[0]) + ser_table_rest(t.skip(1)) + seq!['}']
    }
}

/// Parses one table entry at `i`.
pub open spec fn p_entry(s: Seq<char>, i: int) -> Option<((Seq<char>, Seq<BeadV>), int)> {
    match p_qstr(s, i) {
        None => None,
        Some((k, i1)) => if i1 < s.len() && s[i1] == ':' {
            match p_beads(s, i1 + 1) {
                None => None,
                Some((bs, i2)) => Some(((k, bs), i2)),
            }
        } else {
            None
        },
    }
}

/// Parses the table entries after the first one, up to the closing brace.
pub open spec fn p_table_rest(s: Seq<char>, i: int) -> Option<(TableV, int)>
    decreases s.len() - i,
{
    if 0 <= i && i < s.len() && s[i] == '}' {
        Some((Seq::empty(), i + 1))
    } else if 0 <= i && i < s.len() && s[i] == ',' {
        match p_entry(s, i + 1) {
            None => None,
            Some((e, j)) => if i + 1 < j <= s.len() {
                match p_table_rest(s, j) {
                    None => None,
                    Some((t, j2)) => Some((seq![e] + t, j2)),
                }
            } else {
                None
            },
        }
    } else {
        None
    }
}

/// Parses a whole braced table at `i`.
pub open spec fn p_table(s: Seq<char>, i: int) -> Option<(TableV, int)> {
    if 0 <= i && i < s.len() && s[i] == '{' {
        if i + 1 < s.len() && s[i + 1] == '}' {
            Some((Seq::empty(), i + 2))
        } else {
            match p_entry(s, i + 1) {
                None => None,
                Some((e, j)) => if i + 1 < j <= s.len() {
                    match p_table_rest(s, j) {
                        None => None,
                        Some((t, j2)) => Some((seq![e] + t, j2)),
                    }
                } else {
                    None
                },
            }
        }
    } else {
        None
    }
}

/// Parses a whole document: a braced table and nothing after it.
pub open spec fn p_doc(s: Seq<char>) -> Option<TableV> {
    match p_table(s, 0) {
        None => None,
        Some((t, j)) => if j == s.len() {
            Some(t)
        } else {
            None
        },
    }
}

/// Whether the document can carry every string of this entry verbatim.
pub open spec fn entry_plain(e: (Seq<char>, Seq<BeadV>)) -> bool {
    plain_str(e.0) && beads_plain(e.1)
}

/// Whether the document can carry every string of this table verbatim.
pub open spec fn table_plain(t: TableV) -> bool {
    forall|i: int| 0 <= i < t.len() ==> entry_plain(#[trigger] t[i])
}

/// Parsing a written table entry gives the entry back.
proof fn lemma_p_entry_of_ser(s: Seq<char>, i: int, e: (Seq<char>, Seq<BeadV>))
    requires
        entry_plain(e),
        beads_bounded(e.1),
        0 <= i,
        i + ser_entry(e).len() <= s.len(),
        s.subrange(i, i + ser_entry(e).len()) == ser_entry(e),
    ensures
        p_entry(s, i) == Some((e, i + ser_entry(e).len())),
{
    let pat = ser_entry(e);
    let l = pat.len() as int;
    let lk = e.0.len() as int + 2;
    let lb = ser_beads(e.1).len() as int;
    assert(l == lk + 1 + lb);
    assert(pat.subrange(0, lk) =~= ser_str(e.0));
    lemma_slice_eq(s, i, l, pat, 0, ser_str(e.0));
    lemma_p_qstr_of_ser(s, i, e.0);
    assert(s[i + lk] == s.subrange(i, i + l)[lk]);
    assert(s[i + lk] == ':');
    assert(pat.subrange(lk + 1, l) =~= ser_beads(e.1));
    lemma_slice_eq(s, i, l, pat, lk + 1, ser_beads(e.1));
    lemma_p_beads_of_ser(s, i + lk + 1, e.1);
    assert((e.0, e.1) == e);
}

/// Parsing the written tail of a table, brace included, gives the
/// remaining entries back.
proof fn lemma_p_table_rest_of_ser(s: Seq<char>, i: int, t: TableV)
    requires
        table_plain(t),
        table_bounded(t),
        0 <= i,
        i + ser_table_rest(t).len() + 1 <= s.len(),
        s.subrange(i, i + ser_table_rest(t).len() + 1) == ser_table_rest(t) + seq!['}'],
    ensures
        p_table_rest(s, i) == Some((t, i + ser_table_rest(t).len() + 1)),
    decreases t.len(),
{
    let pat = ser_table_rest(t) + seq!['}'];
    let l = pat.len() as int;
    assert(s[i] == s.subrange(i, i + l)[0]);
    if t.len() == 0 {
        assert(s[i] == '}');
    } else {
        let le = ser_entry(t[0]).len() as int;
        let lr = ser_table_rest(t.skip(1)).len() as int;
        assert(l == 1 + le + lr + 1);
        assert(s[i] == ',');
        assert(pat.subrange(1, 1 + le) =~= ser_entry(t[0]));
        lemma_slice_eq(s, i, l, pat, 1, ser_entry(t[0]));
        assert(beads_bounded(t[0].1)) by {
            assert forall|w: int| 0 <= w < t[0].1.len() implies (#[trigger] t[0].1[w]).count
                <= usize::MAX as nat by {
                assert(t[0].1[w].count <= usize::MAX as nat);
            }
        }
        lemma_p_entry_of_ser(s, i + 1, t[0]);
        assert(table_plain(t.skip(1)) && table_bounded(t.skip(1))) by {
            assert forall|w: int| 0 <= w < t.skip(1).len() implies entry_plain(
                #[trigger] t.skip(1)[w],
            ) by {
                assert(t.skip(1)[w] == t[w + 1]);
            }
            assert forall|w: int, v: int|
                0 <= w < t.skip(1).len() && 0 <= v < t.skip(1)[w].1.len() implies (
            #[trigger] t.skip(1)[w].1[v]).count <= usize::MAX as nat by {
                assert(t.skip(1)[w] == t[w + 1]);
                assert(t[w + 1].1[v].count <= usize::MAX as nat);
            }
        }
        assert(pat.subrange(1 + le, l) =~= ser_table_rest(t.skip(1)) + seq!['}']);
        lemma_slice_eq(s, i, l, pat, 1 + le, ser_table_rest(t.skip(1)) + seq!['}']);
        lemma_p_table_rest_of_ser(s, i + 1 + le, t.skip(1));
        assert(seq![t[0]] + t.skip(1) =~= t);
    }
}

/// Parsing a written table gives the table back.
proof fn lemma_p_table_of_ser(s: Seq<char>, i: int, t: TableV)
    requires
        table_plain(t),
        table_bounded(t),
        0 <= i,
        i + doc_of(t).len() <= s.len(),
        s.subrange(i, i + doc_of(t).len()) == doc_of(t),
    ensures
        p_table(s, i) == Some((t, i + doc_of(t).len())),
{
    let pat = doc_of(t);
    let l = pat.len() as int;
    assert(s[i] == s.subrange(i, i + l)[0]);
    assert(s[i] == '{');
    if t.len() == 0 {
        assert(s[i + 1] == s.subrange(i, i + l)[1]);
        assert(s[i + 1] == '}');
    } else {
        let le = ser_entry(t[0]).len() as int;
        let lr = ser_table_rest(t.skip(1)).len() as int;
        assert(l == 1 + le + lr + 1);
        assert(pat[1] == ser_str(t[0].0)[0]);
        assert(s[i + 1] == s.subrange(i, i + l)[1]);
        assert(s[i + 1] == '"');
        assert(pat.subrange(1, 1 + le) =~= ser_entry(t[0]));
        lemma_slice_eq(s, i, l, pat, 1, ser_entry(t[0]));
        assert(beads_bounded(t[0].1)) by {
            assert forall|w: int| 0 <= w < t[0].1.len() implies (#[trigger] t[0].1[w]).count
                <= usize::MAX as nat by {
                assert(t[0].1[w].count <= usize::MAX as nat);
            }
        }
        lemma_p_entry_of_ser(s, i + 1, t[0]);
        assert(table_plain(t.skip(1)) && table_bounded(t.skip(1))) by {
            assert forall|w: int| 0 <= w < t.skip(1).len() implies entry_plain(
                #[trigger] t.skip(1)[w],
            ) by {
                assert(t.skip(1)[w] == t[w + 1]);
            }
            assert forall|w: int, v: int|
                0 <= w < t.skip(1).len() && 0 <= v < t.skip(1)[w].1.len() implies (
            #[trigger] t.skip(1)[w].1[v]).count <= usize::MAX as nat by {
                assert(t.skip(1)[w] == t[w + 1]);
                assert(t[w + 1].1[v].count <= usize::MAX as nat);
            }
        }
        assert(pat.subrange(1 + le, l) =~= ser_table_rest(t.skip(1)) + seq!['}']);
        lemma_slice_eq(s, i, l, pat, 1 + le, ser_table_rest(t.skip(1)) + seq!['}']);
        lemma_p_table_rest_of_ser(s, i + 1 + le, t.skip(1));
        assert(seq![t[0]] + t.skip(1) =~= t);
    }
}

/// The round trip of persistence: parsing the written document of any
/// carriable table gives exactly that table back. Together with the
/// contracts of `Menace::save` and `Menace::load`, saving an engine and
/// loading the result reproduces its table, states, successors and
/// counts alike.
pub proof fn lemma_doc_round_trip(t: TableV)
    requires
        table_plain(t),
        table_bounded(t),
    ensures
        p_doc(doc_of(t)) == Some(t),
{
    let s = doc_of(t);
    assert(s.subrange(0, s.len() as int) =~= s);
    lemma_p_table_of_ser(s, 0, t);
}

/// Whether `c` is a decimal digit.
fn digit_p(c: char) -> (r: bool)
    ensures
        r == is_digit(c),
{
    let u = c as u32;
    48 <= u && u <= 57
}

/// Whether the document can carry `c` verbatim.
fn plain_p(c: char) -> (r: bool)
    ensures
        r == plain_char(c),
{
    c != '"' && c != '\\' && c as u32 >= 32
}

/// The character of a digit value below ten.
pub(crate) fn digit_char_of(d: usize) -> (c: char)
    requires
        d < 10,
    ensures
        c == digit_char(d as nat),
{
    if d == 0 {
        '0'
    } else if d == 1 {
        '1'
    } else if d == 2 {
        '2'
    } else if d == 3 {
        '3'
    } else if d == 4 {
        '4'
    } else if d == 5 {
        '5'
    } else if d == 6 {
        '6'
    } else if d == 7 {
        '7'
    } else if d == 8 {
        '8'
    } else {
        '9'
    }
}

/// Appends the decimal form of `v`.
fn write_nat(out: &mut String, v: usize)
    ensures
        final(out)@ == old(out)@ + ser_nat(v as nat),
    decreases v,
{
    if v < 10 {
        out.push(digit_char_of(v));
        proof {
            assert(final(out)@ =~= old(out)@ + ser_nat(v as nat));
        }
    } else {
        proof {
            assert(v / 10 < v) by (nonlinear_arith)
                requires
                    v >= 10,
            ;
        }
        write_nat(out, v / 10);
        out.push(digit_char_of(v % 10));
        proof {
            assert(final(out)@ =~= old(out)@ + ser_nat(v as nat));
        }
    }
}

/// Appends `s` between quote marks, verbatim.
fn write_qstr(out: &mut String, s: &String)
    ensures
        final(out)@ == old(out)@ + ser_str(s@),
{
    out.push('"');
    out.append(s.as_str());
    out.push('"');
    proof {
        assert(final(out)@ =~= old(out)@ + ser_str(s@));
    }
}

/// Parses a machine-range number at `i`.
fn parse_nat(text: &Vec<char>, i: usize) -> (r: Option<(usize, usize)>)
    requires
        i <= text@.len(),
    ensures
        r is None ==> p_nat(text@, i as int) is None,
        r matches Some((v, j)) ==> p_nat(text@, i as int) == Some((v as nat, j as int)) && i < j
            <= text@.len(),
{
    let n = text.len();
    let mut j: usize = i;
    let mut acc: u128 = 0;
    while j < n && digit_p(text[j])
        invariant
            i <= j <= n,
            n == text@.len(),
            digits_end(text@, i as int) == digits_end(text@, j as int),
            acc == digits_val_c(text@, i as int, j as int),
            acc <= usize::MAX as u128 + 1,
        decreases n - j,
    {
        let c = text[j];
        let d = (c as u32 - 48) as u128;
        acc = acc * 10 + d;
        if acc > usize::MAX as u128 {
            acc = usize::MAX as u128 + 1;
        }
        j += 1;
    }
    proof {
        assert(digits_end(text@, j as int) == j as int);
    }
    if j == i {
        return None;
    }
    if acc > usize::MAX as u128 {
        return None;
    }
    Some((acc as usize, j))
}

/// Parses a quoted string at `i`.
fn parse_qstr(text: &Vec<char>, i: usize) -> (r: Option<(String, usize)>)
    requires
        i <= text@.len(),
    ensures
        r is None ==> p_qstr(text@, i as int) is None,
        r matches Some((v, j)) ==> p_qstr(text@, i as int) == Some((v@, j as int)) && i < j
            <= text@.len(),
{
    let n = text.len();
    if !(i < n) {
        return None;
    }
    if !(text[i] == '"') {
        return None;
    }
    let mut j: usize = i + 1;
    let mut out = String::new();
    while j < n && plain_p(text[j])
        invariant
            i + 1 <= j <= n,
            n == text@.len(),
            str_end(text@, i as int + 1) == str_end(text@, j as int),
            out@ == text@.subrange(i as int + 1, j as int),
        decreases n - j,
    {
        out.push(text[j]);
        proof {
            assert(out@ =~= text@.subrange(i as int + 1, j as int + 1));
        }
        j += 1;
    }
    proof {
        assert(str_end(text@, j as int) == j as int);
    }
    if j < n && text[j] == '"' {
        Some((out, j + 1))
    } else {
        None
    }
}

/// Parses the fixed text `lit` at `i`.
fn expect_lit(text: &Vec<char>, i: usize, lit: &str) -> (r: Option<usize>)
    requires
        i <= text@.len(),
    ensures
        r is None ==> p_lit(text@, i as int, lit@) is None,
        r matches Some(j) ==> p_lit(text@, i as int, lit@) == Some(j as int) && i <= j
            <= text@.len(),
{
    let m = lit.unicode_len();
    if m > text.len() - i {
        return None;
    }
    let mut k: usize = 0;
    while k < m
        invariant
            k <= m,
            m == lit@.len(),
            i + m <= text@.len(),
            i + m <= usize::MAX,
            forall|w: int| 0 <= w < k ==> text@[i + w] == lit@[w],
        decreases m - k,
    {
        proof {
            assert(i + k < text@.len());
        }
        let idx = i + k;
        if !(text[idx] == lit.get_char(k)) {
            proof {
                assert(text@.subrange(i as int, i as int + m as int)[k as int] != lit@[k as int]);
            }
            return None;
        }
        k += 1;
    }
    proof {
        assert(text@.subrange(i as int, i as int + m as int) =~= lit@);
    }
    Some(i + m)
}

/// Parses one bead record at `i`.
fn parse_bead(text: &Vec<char>, i: usize) -> (r: Option<(Bead, usize)>)
    requires
        i <= text@.len(),
    ensures
        r is None ==> p_bead(text@, i as int) is None,
        r matches Some((b, j)) ==> p_bead(text@, i as int) == Some((b@, j as int)) && i < j
            <= text@.len(),
{
    proof {
        assert(lit_bead_open() == "{\"next_state\":"@);
        assert(lit_count() == ",\"count\":"@);
    }
    let i1 = match expect_lit(text, i, "{\"next_state\":") {
        Some(x) => x,
        None => {
            return None;
        },
    };
    let (ns, i2) = match parse_qstr(text, i1) {
        Some(x) => x,
        None => {
            return None;
        },
    };
    let i3 = match expect_lit(text, i2, ",\"count\":") {
        Some(x) => x,
        None => {
            return None;
        },
    };
    let (v, i4) = match parse_nat(text, i3) {
        Some(x) => x,
        None => {
            return None;
        },
    };
    if i4 < text.len() && text[i4] == '}' {
        Some((Bead { next_state: ns, count: v }, i4 + 1))
    } else {
        None
    }
}

/// Parses the tail of a bracketed bead list at `i`.
fn parse_beads_rest(text: &Vec<char>, i: usize) -> (r: Option<(Vec<Bead>, usize)>)
    requires
        i <= text@.len(),
    ensures
        r is None ==> p_beads_rest(text@, i as int) is None,
        r matches Some((v, j)) ==> p_beads_rest(text@, i as int) == Some(
            (beads_view(v@), j as int),
        ) && i < j <= text@.len(),
    decreases text@.len() - i,
{
    let n = text.len();
    if i < n && text[i] == ']' {
        let out: Vec<Bead> = Vec::new();
        proof {
            assert(beads_view(out@) =~= Seq::<BeadV>::empty());
        }
        return Some((out, i + 1));
    }
    if i < n && text[i] == ',' {
        match parse_bead(text, i + 1) {
            None => None,
            Some((b, j)) => {
                match parse_beads_rest(text, j) {
                    None => None,
                    Some((bs, j2)) => {
                        let mut bs = bs;
                        let ghost tail = beads_view(bs@);
                        bs.insert(0, b);
                        proof {
                            assert(beads_view(bs@) =~= seq![b@] + tail);
                        }
                        Some((bs, j2))
                    },
                }
            },
        }
    } else {
        None
    }
}

/// Parses a bracketed bead list at `i`.
fn parse_beads(text: &Vec<char>, i: usize) -> (r: Option<(Vec<Bead>, usize)>)
    requires
        i <= text@.len(),
    ensures
        r is None ==> p_beads(text@, i as int) is None,
        r matches Some((v, j)) ==> p_beads(text@, i as int) == Some((beads_view(v@), j as int))
            && i < j <= text@.len(),
{
    let n = text.len();
    if !(i < n && text[i] == '[') {
        return None;
    }
    if i + 1 < n && text[i + 1] == ']' {
        let out: Vec<Bead> = Vec::new();
        proof {
            assert(beads_view(out@) =~= Seq::<BeadV>::empty());
        }
        return Some((out, i + 2));
    }
    match parse_bead(text, i + 1) {
        None => None,
        Some((b, j)) => {
            match parse_beads_rest(text, j) {
                None => None,
                Some((bs, j2)) => {
                    let mut bs = bs;
                    let ghost tail = beads_view(bs@);
                    bs.insert(0, b);
                    proof {
                        assert(beads_view(bs@) =~= seq![b@] + tail);
                    }
                    Some((bs, j2))
                },
            }
        },
    }
}

/// Appends one bead record.
fn write_bead(out: &mut String, b: &Bead)
    ensures
        final(out)@ == old(out)@ + ser_bead(b@),
{
    out.append("{\"next_state\":");
    write_qstr(out, &b.next_state);
    out.append(",\"count\":");
    write_nat(out, b.count);
    out.push('}');
    proof {
        assert(lit_bead_open() == "{\"next_state\":"@);
        assert(lit_count() == ",\"count\":"@);
        assert(final(out)@ =~= old(out)@ + ser_bead(b@));
    }
}

/// Appends the tail of a bead list, from position `k` on, commas included.
fn write_beads_rest(out: &mut String, bs: &Vec<Bead>, k: usize)
    requires
        k <= bs@.len(),
    ensures
        final(out)@ == old(out)@ + ser_beads_rest(beads_view(bs@).skip(k as int)),
    decreases bs@.len() - k,
{
    if k == bs.len() {
        proof {
            assert(beads_view(bs@).skip(k as int) =~= Seq::<BeadV>::empty());
            assert(final(out)@ =~= old(out)@ + ser_beads_rest(beads_view(bs@).skip(k as int)));
        }
        return ;
    }
    out.push(',');
    write_bead(out, &bs[k]);
    write_beads_rest(out, bs, k + 1);
    proof {
        let bv = beads_view(bs@);
        assert(bv.skip(k as int)[0] == bv[k as int]);
        assert(bv.skip(k as int).skip(1) =~= bv.skip(k as int + 1));
        assert(final(out)@ =~= old(out)@ + ser_beads_rest(bv.skip(k as int)));
    }
}

/// Appends a whole bracketed bead list.
fn write_beads(out: &mut String, bs: &Vec<Bead>)
    ensures
        final(out)@ == old(out)@ + ser_beads(beads_view(bs@)),
{
    out.push('[');
    if bs.len() > 0 {
        write_bead(out, &bs[0]);
        write_beads_rest(out, bs, 1);
    }
    out.push(']');
    proof {
        let bv = beads_view(bs@);
        if bv.len() == 0 {
            assert(final(out)@ =~= old(out)@ + ser_beads(bv));
        } else {
            assert(bv.skip(0)[0] == bv[0]);
            assert(final(out)@ =~= old(out)@ + ser_beads(bv));
        }
    }
}

/// The mathematical content of one parsed entry.
pub open spec fn entry_view(e: (String, Vec<Bead>)) -> (Seq<char>, Seq<BeadV>) {
    (e.0@, beads_view(e.1@))
}

/// Parses one table entry at `i`.
fn parse_entry(text: &Vec<char>, i: usize) -> (r: Option<((String, Vec<Bead>), usize)>)
    requires
        i <= text@.len(),
    ensures
        r is None ==> p_entry(text@, i as int) is None,
        r matches Some((e, j)) ==> p_entry(text@, i as int) == Some((entry_view(e), j as int))
            && i < j <= text@.len(),
{
    let (k, i1) = match parse_qstr(text, i) {
        Some(x) => x,
        None => {
            return None;
        },
    };
    if !(i1 < text.len() && text[i1] == ':') {
        return None;
    }
    match parse_beads(text, i1 + 1) {
        None => None,
        Some((bs, i2)) => Some(((k, bs), i2)),
    }
}

/// Parses the table entries after the first one, up to the closing brace.
fn parse_table_rest(text: &Vec<char>, i: usize) -> (r: Option<(Vec<(String, Vec<Bead>)>, usize)>)
    requires
        i <= text@.len(),
    ensures
        r is None ==> p_table_rest(text@, i as int) is None,
        r matches Some((v, j)) ==> p_table_rest(text@, i as int) == Some(
            (crate::menace::table_view(v@), j as int),
        ) && i < j <= text@.len(),
    decreases text@.len() - i,
{
    let n = text.len();
    if i < n && text[i] == '}' {
        let out: Vec<(String, Vec<Bead>)> = Vec::new();
        proof {
            assert(crate::menace::table_view(out@) =~= Seq::<(Seq<char>, Seq<BeadV>)>::empty());
        }
        return Some((out, i + 1));
    }
    if i < n && text[i] == ',' {
        match parse_entry(text, i + 1) {
            None => None,
            Some((e, j)) => {
                match parse_table_rest(text, j) {
                    None => None,
                    Some((v, j2)) => {
                        let mut v = v;
                        let ghost tail = crate::menace::table_view(v@);
                        let ghost ev = entry_view(e);
                        v.insert(0, e);
                        proof {
                            assert(crate::menace::table_view(v@) =~= seq![ev] + tail);
                        }
                        Some((v, j2))
                    },
                }
            },
        }
    } else {
        None
    }
}

/// Parses a whole braced table at `i`.
fn parse_table(text: &Vec<char>, i: usize) -> (r: Option<(Vec<(String, Vec<Bead>)>, usize)>)
    requires
        i <= text@.len(),
    ensures
        r is None ==> p_table(text@, i as int) is None,
        r matches Some((v, j)) ==> p_table(text@, i as int) == Some(
            (crate::menace::table_view(v@), j as int),
        ) && i < j <= text@.len(),
{
    let n = text.len();
    if !(i < n && text[i] == '{') {
        return None;
    }
    if i + 1 < n && text[i + 1] == '}' {
        let out: Vec<(String, Vec<Bead>)> = Vec::new();
        proof {
            assert(crate::menace::table_view(out@) =~= Seq::<(Seq<char>, Seq<BeadV>)>::empty());
        }
        return Some((out, i + 2));
    }
    match parse_entry(text, i + 1) {
        None => None,
        Some((e, j)) => {
            match parse_table_rest(text, j) {
                None => None,
                Some((v, j2)) => {
                    let mut v = v;
                    let ghost tail = crate::menace::table_view(v@);
                    let ghost ev = entry_view(e);
                    v.insert(0, e);
                    proof {
                        assert(crate::menace::table_view(v@) =~= seq![ev] + tail);
                    }
                    Some((v, j2))
                },
            }
        },
    }
}

/// Appends one table entry.
fn write_entry(out: &mut String, e: &(String, Vec<Bead>))
    ensures
        final(out)@ == old(out)@ + ser_entry(entry_view(*e)),
{
    write_qstr(out, &e.0);
    out.push(':');
    write_beads(out, &e.1);
    proof {
        assert(final(out)@ =~= old(out)@ + ser_entry(entry_view(*e)));
    }
}

/// Appends the table entries from position `k` on, commas included.
fn write_table_rest(out: &mut String, v: &Vec<(String, Vec<Bead>)>, k: usize)
    requires
        k <= v@.len(),
    ensures
        final(out)@ == old(out)@ + ser_table_rest(crate::menace::table_view(v@).skip(k as int)),
    decreases v@.len() - k,
{
    let ghost tv = crate::menace::table_view(v@);
    if k == v.len() {
        proof {
            assert(tv.skip(k as int) =~= Seq::<(Seq<char>, Seq<BeadV>)>::empty());
            assert(final(out)@ =~= old(out)@ + ser_table_rest(tv.skip(k as int)));
        }
        return ;
    }
    out.push(',');
    write_entry(out, &v[k]);
    write_table_rest(out, v, k + 1);
    proof {
        assert(tv.skip(k as int)[0] == tv[k as int]);
        assert(tv.skip(k as int).skip(1) =~= tv.skip(k as int + 1));
        assert(final(out)@ =~= old(out)@ + ser_table_rest(tv.skip(k as int)));
    }
}

/// Appends a whole braced table.
fn write_table(out: &mut String, v: &Vec<(String, Vec<Bead>)>)
    ensures
        final(out)@ == old(out)@ + doc_of(crate::menace::table_view(v@)),
{
    let ghost tv = crate::menace::table_view(v@);
    out.push('{');
    if v.len() > 0 {
        write_entry(out, &v[0]);
        write_table_rest(out, v, 1);
    }
    out.push('}');
    proof {
        if tv.len() == 0 {
            assert(final(out)@ =~= old(out)@ + doc_of(tv));
        } else {
            assert(tv.skip(0)[0] == tv[0]);
            assert(final(out)@ =~= old(out)@ + doc_of(tv));
        }
    }
}

/// Whether the document can carry every character of `s` verbatim.
fn plain_string_p(s: &String) -> (r: bool)
    ensures
        r == plain_str(s@),
{
    let st = s.as_str();
    let n = st.unicode_len();
    let mut i: usize = 0;
    while i < n
        invariant
            i <= n,
            n == st@.len(),
            st@ == s@,
            forall|w: int| 0 <= w < i ==> plain_char(#[trigger] s@[w]),
        decreases n - i,
    {
        if !plain_p(st.get_char(i)) {
            return false;
        }
        i += 1;
    }
    true
}

/// Whether the document can carry every string of these entries verbatim.
fn table_plain_p(v: &Vec<(String, Vec<Bead>)>) -> (r: bool)
    ensures
        r == table_plain(crate::menace::table_view(v@)),
{
    let ghost tv = crate::menace::table_view(v@);
    let n = v.len();
    let mut i: usize = 0;
    while i < n
        invariant
            i <= n,
            n == v@.len(),
            tv == crate::menace::table_view(v@),
            forall|w: int| 0 <= w < i ==> entry_plain(#[trigger] tv[w]),
        decreases n - i,
    {
        if !plain_string_p(&v[i].0) {
            proof {
                assert(!plain_str(tv[i as int].0));
            }
            return false;
        }
        let m = v[i].1.len();
        let mut j: usize = 0;
        while j < m
            invariant
                i < n,
                j <= m,
                n == v@.len(),
                m == v@[i as int].1@.len(),
                tv == crate::menace::table_view(v@),
                forall|w: int|
                    0 <= w < j ==> plain_str((#[trigger] tv[i as int].1[w]).next_state),
            decreases m - j,
        {
            if !plain_string_p(&v[i].1[j].next_state) {
                proof {
                    assert(!plain_str(tv[i as int].1[j as int].next_state));
                }
                return false;
            }
            j += 1;
        }
        proof {
            assert(entry_plain(tv[i as int]));
        }
        i += 1;
    }
    true
}

/// Whether no two of these entries share a state string.
fn keys_distinct_p(v: &Vec<(String, Vec<Bead>)>) -> (r: bool)
    ensures
        r == crate::menace::keys_distinct(crate::menace::table_view(v@)),
{
    let ghost tv = crate::menace::table_view(v@);
    let n = v.len();
    let mut i: usize = 0;
    while i < n
        invariant
            i <= n,
            n == v@.len(),
            tv == crate::menace::table_view(v@),
            forall|a: int, b: int| 0 <= a < i && a < b < n ==> tv[a].0 != tv[b].0,
        decreases n - i,
    {
        let mut j: usize = i + 1;
        while j < n
            invariant
                i < j <= n,
                n == v@.len(),
                tv == crate::menace::table_view(v@),
                forall|b: int| i < b < j ==> tv[i as int].0 != tv[b].0,
            decreases n - j,
        {
            if v[i].0 == v[j].0 {
                proof {
                    assert(tv[i as int].0 == tv[j as int].0);
                }
                return false;
            }
            j += 1;
        }
        i += 1;
    }
    true
}

impl crate::menace::Menace {
    /// Writes the learned table as a single structured document: every
    /// visited state with its bead records, counts included, in table
    /// order. The episode record is never written. Fails exactly when some
    /// state string holds a character the format cannot carry.
    pub fn save(&self) -> (r: Result<String, crate::menace::MenaceError>)
        ensures
            table_plain(self.table()) ==> (r matches Ok(s) && s@ == doc_of(self.table())),
            !table_plain(self.table()) ==> (r matches Err(e) && e
                == crate::menace::MenaceError::UnencodableState),
            table_bounded(self.table()),
    {
        proof {
            self.lemma_table_bounded();
        }
        let parts = self.parts();
        if !table_plain_p(parts) {
            return Err(crate::menace::MenaceError::UnencodableState);
        }
        let mut out = String::new();
        write_table(&mut out, parts);
        Ok(out)
    }

    /// Reads a document written by `save` back into an engine with a fresh
    /// episode. Returns the malformed-document error exactly when the text
    /// is not the document of some table with pairwise different states.
    pub fn load(s: &str) -> (r: Result<crate::menace::Menace, crate::menace::MenaceError>)
        ensures
            r matches Ok(m) ==> {
                &&& m.wf()
                &&& m.episode_view().len() == 0
                &&& p_doc(s@) == Some(m.table())
                &&& crate::menace::keys_distinct(m.table())
            },
            r matches Err(e) ==> {
                &&& e == crate::menace::MenaceError::MalformedDocument
                &&& match p_doc(s@) {
                    Some(t) => !crate::menace::keys_distinct(t),
                    None => true,
                }
            },
    {
        let n = s.unicode_len();
        let mut text: Vec<char> = Vec::new();
        let mut i: usize = 0;
        while i < n
            invariant
                i <= n,
                n == s@.len(),
                text@ == s@.subrange(0, i as int),
            decreases n - i,
        {
            text.push(s.get_char(i));
            proof {
                assert(text@ =~= s@.subrange(0, i as int + 1));
            }
            i += 1;
        }
        proof {
            assert(text@ =~= s@);
        }
        match parse_table(&text, 0) {
            None => Err(crate::menace::MenaceError::MalformedDocument),
            Some((v, j)) => {
                if j != text.len() {
                    return Err(crate::menace::MenaceError::MalformedDocument);
                }
                if !keys_distinct_p(&v) {
                    return Err(crate::menace::MenaceError::MalformedDocument);
                }
                Ok(crate::menace::Menace::from_parts(v))
            },
        }
    }
}

} // verus!
