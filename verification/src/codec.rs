//! The file format of the library: a JSON-shaped text encoding for study
//! sets and for the catalogue inventory, written and parsed by verified
//! code. Strings escape the quote, the backslash, newline, carriage return
//! and tab; any other character is written as itself. Numbers are canonical
//! decimals. The parser accepts exactly what the encoder emits and returns
//! nothing on any other input.

use vstd::prelude::*;

use crate::card::Card;
use crate::card::CardV;
use crate::catalogue::Catalogue;
use crate::list_item::ListItem;
use crate::list_item::ListItemV;
use crate::study_set::StudySet;
use crate::study_set::StudySetV;
use crate::text::string_from_chars;

verus! {

// ------------------------------------------------------------------
// encoding: spec
// ------------------------------------------------------------------

/// How one character is written inside a quoted string.
pub open spec fn esc_char(c: char) -> Seq<char> {
    if c == '"' {
        seq!['\\', '"']
    } else if c == '\\' {
        seq!['\\', '\\']
    } else if c == '\n' {
        seq!['\\', 'n']
    } else if c == '\r' {
        seq!['\\', 'r']
    } else if c == '\t' {
        seq!['\\', 't']
    } else {
        seq![c]
    }
}

/// The characters between the quotes of an encoded string.
pub open spec fn enc_str_body(s: Seq<char>) -> Seq<char>
    decreases s.len(),
{
    if s.len() == 0 {
        Seq::empty()
    } else {
        esc_char(s[0]) + enc_str_body(s.drop_first())
    }
}

/// A quoted, escaped string.
pub open spec fn enc_string(s: Seq<char>) -> Seq<char> {
    seq!['"'] + enc_str_body(s) + seq!['"']
}

/// The character for one decimal digit.
pub open spec fn digit_char(d: nat) -> char {
    if d == 0 {
        '0'
    } else if d == 1 {
        '1'
    } else if d == 2 {
        '2'
    } else if d == 3 {
        '3'
    } else if d == 4 {
        '4'
    } else if d == 5 {
        '5'
    } else if d == 6 {
        '6'
    } else if d == 7 {
        '7'
    } else if d == 8 {
        '8'
    } else {
        '9'
    }
}

/// The canonical decimal digits of `n`, most significant first.
pub open spec fn dec_digits(n: nat) -> Seq<char>
    decreases n,
{
    if n < 10 {
        seq![digit_char(n)]
    } else {
        dec_digits(n / 10).push(digit_char(n % 10))
    }
}

// ------------------------------------------------------------------
// parsing: spec
// ------------------------------------------------------------------

/// A decimal digit.
pub open spec fn is_digit(c: char) -> bool {
    48 <= c as u32 <= 57
}

/// The value of one digit character.
pub open spec fn digit_val(c: char) -> nat {
    (c as u32 - 48) as nat
}

/// What one escape letter after a backslash stands for.
pub open spec fn unesc(c: char) -> Option<char> {
    if c == '"' {
        Some('"')
    } else if c == '\\' {
        Some('\\')
    } else if c == 'n' {
        Some('\n')
    } else if c == 'r' {
        Some('\r')
    } else if c == 't' {
        Some('\t')
    } else {
        None
    }
}

/// The token `tok` read at position `i`, yielding the position after it.
pub open spec fn spec_expect(s: Seq<char>, i: int, tok: Seq<char>) -> Option<int> {
    if 0 <= i && i + tok.len() <= s.len() && s.subrange(i, i + tok.len()) == tok {
        Some(i + tok.len())
    } else {
        None
    }
}

/// String contents read from position `i` up to and including the closing
/// quote.
pub open spec fn spec_parse_str_body(s: Seq<char>, i: int) -> Option<(Seq<char>, int)>
    decreases s.len() - i,
{
    if i < 0 || i >= s.len() {
        None
    } else if s[i] == '"' {
        Some((Seq::empty(), i + 1))
    } else if s[i] == '\\' {
        if i + 1 < s.len() {
            match unesc(s[i + 1]) {
                Some(c) => match spec_parse_str_body(s, i + 2) {
                    Some(p) => Some((seq![c] + p.0, p.1)),
                    None => None,
                },
                None => None,
            }
        } else {
            None
        }
    } else {
        match spec_parse_str_body(s, i + 1) {
            Some(p) => Some((seq![s[i]] + p.0, p.1)),
            None => None,
        }
    }
}

/// A quoted string read at position `i`.
pub open spec fn spec_parse_string(s: Seq<char>, i: int) -> Option<(Seq<char>, int)> {
    if 0 <= i < s.len() && s[i] == '"' {
        spec_parse_str_body(s, i + 1)
    } else {
        None
    }
}

/// The longest digit run from `i`, folded onto `acc`.
pub open spec fn spec_parse_digits(s: Seq<char>, i: int, acc: nat) -> (nat, int)
    decreases s.len() - i,
{
    if 0 <= i < s.len() && is_digit(s[i]) {
        spec_parse_digits(s, i + 1, acc * 10 + digit_val(s[i]))
    } else {
        (acc, i)
    }
}

/// A canonical decimal that fits in `usize`, read at position `i`. A zero is
/// a single digit; a longer run may not start with one.
pub open spec fn spec_parse_usize(s: Seq<char>, i: int) -> Option<(nat, int)> {
    if 0 <= i < s.len() && is_digit(s[i]) {
        if s[i] == '0' {
            Some((0, i + 1))
        } else {
            let r = spec_parse_digits(s, i, 0);
            if r.0 <= usize::MAX {
                Some(r)
            } else {
                None
            }
        }
    } else {
        None
    }
}

// ------------------------------------------------------------------
// round trip: string and number layer
// ------------------------------------------------------------------

/// The text `t` stands at position `i` of `s`.
pub open spec fn text_at(s: Seq<char>, i: int, t: Seq<char>) -> bool {
    0 <= i && i + t.len() <= s.len() && s.subrange(i, i + t.len()) == t
}

proof fn lemma_at_concat(s: Seq<char>, i: int, a: Seq<char>, b: Seq<char>)
    requires
        text_at(s, i, a + b),
    ensures
        text_at(s, i, a),
        text_at(s, i + a.len(), b),
{
    assert(s.subrange(i, i + a.len()) =~= a) by {
        assert forall|k: int| 0 <= k < a.len() implies s.subrange(i, i + a.len())[k] == a[k] by {
            assert(s.subrange(i, i + (a + b).len())[k] == (a + b)[k]);
        }
    }
    assert(s.subrange(i + a.len(), i + a.len() + b.len()) =~= b) by {
        assert forall|k: int|
            0 <= k < b.len() implies s.subrange(i + a.len(), i + a.len() + b.len())[k] == b[k] by {
            assert(s.subrange(i, i + (a + b).len())[a.len() + k] == (a + b)[a.len() + k]);
        }
    }
}

proof fn lemma_expect_rt(s: Seq<char>, i: int, tok: Seq<char>)
    requires
        text_at(s, i, tok),
    ensures
        spec_expect(s, i, tok) == Some(i + tok.len()),
{
}

proof fn lemma_parse_str_body_rt(s: Seq<char>, i: int, v: Seq<char>)
    requires
        text_at(s, i, enc_str_body(v) + seq!['"']),
    ensures
        spec_parse_str_body(s, i) == Some((v, i + enc_str_body(v).len() + 1)),
    decreases v.len(),
{
    if v.len() == 0 {
        assert(enc_str_body(v) + seq!['"'] =~= seq!['"']);
        assert(s.subrange(i, i + 1)[0] == s[i]);
        assert(s[i] == '"');
    } else {
        let c = v[0];
        let tail = enc_str_body(v.drop_first());
        assert(enc_str_body(v) + seq!['"'] =~= esc_char(c) + (tail + seq!['"']));
        lemma_at_concat(s, i, esc_char(c), tail + seq!['"']);
        lemma_parse_str_body_rt(s, i + esc_char(c).len(), v.drop_first());
        let el = esc_char(c).len() as int;
        assert(s[i] == esc_char(c)[0]) by {
            assert(s.subrange(i, i + el)[0] == esc_char(c)[0]);
        }
        if c == '"' || c == '\\' || c == '\n' || c == '\r' || c == '\t' {
            assert(s[i + 1] == esc_char(c)[1]) by {
                assert(s.subrange(i, i + el)[1] == esc_char(c)[1]);
            }
            assert(s[i] == '\\');
            assert(unesc(s[i + 1]) == Some(c));
            assert(i + 1 < s.len());
            let p = spec_parse_str_body(s, i + 2).unwrap();
            assert(seq![c] + v.drop_first() =~= v);
            assert(enc_str_body(v).len() == 2 + tail.len());
        } else {
            assert(s[i] == c);
            assert(c != '"' && c != '\\');
            assert(seq![c] + v.drop_first() =~= v);
            assert(enc_str_body(v).len() == 1 + tail.len());
        }
    }
}

proof fn lemma_parse_string_rt(s: Seq<char>, i: int, v: Seq<char>)
    requires
        text_at(s, i, enc_string(v)),
    ensures
        spec_parse_string(s, i) == Some((v, i + enc_string(v).len())),
{
    assert(enc_string(v) =~= seq!['"'] + (enc_str_body(v) + seq!['"']));
    lemma_at_concat(s, i, seq!['"'], enc_str_body(v) + seq!['"']);
    assert(s.subrange(i, i + 1)[0] == s[i]);
    assert(s[i] == '"');
    lemma_parse_str_body_rt(s, i + 1, v);
}

/// 10 to the `k`.
pub open spec fn pow10(k: nat) -> nat
    decreases k,
{
    if k == 0 {
        1
    } else {
        10 * pow10((k - 1) as nat)
    }
}

spec fn all_digits(ds: Seq<char>) -> bool {
    forall|k: int| 0 <= k < ds.len() ==> is_digit(ds[k])
}

/// The digit run of `ds`, folded onto `acc` most significant first.
spec fn digits_val_from(ds: Seq<char>, acc: nat) -> nat
    decreases ds.len(),
{
    if ds.len() == 0 {
        acc
    } else {
        digits_val_from(ds.drop_first(), acc * 10 + digit_val(ds[0]))
    }
}

proof fn lemma_dec_digits_shape(n: nat)
    ensures
        dec_digits(n).len() >= 1,
        all_digits(dec_digits(n)),
        n > 0 ==> dec_digits(n)[0] != '0',
        digit_val(dec_digits(n).last()) == n % 10,
    decreases n,
{
    if n < 10 {
        assert(dec_digits(n)[0] == digit_char(n));
        assert(is_digit(digit_char(n)));
        assert(n % 10 == n);
    } else {
        lemma_dec_digits_shape(n / 10);
        assert(n / 10 > 0);
        let pre = dec_digits(n / 10);
        assert(dec_digits(n) == pre.push(digit_char(n % 10)));
        assert(dec_digits(n)[0] == pre[0]);
        assert forall|k: int| 0 <= k < dec_digits(n).len() implies is_digit(dec_digits(n)[k]) by {
            if k < pre.len() {
                assert(dec_digits(n)[k] == pre[k]);
            } else {
                assert(dec_digits(n)[k] == digit_char(n % 10));
            }
        }
    }
}

proof fn lemma_digits_val_push(ds: Seq<char>, c: char, acc: nat)
    ensures
        digits_val_from(ds.push(c), acc) == digits_val_from(ds, acc) * 10 + digit_val(c),
    decreases ds.len(),
{
    reveal_with_fuel(digits_val_from, 3);
    if ds.len() == 0 {
        assert(ds.push(c)[0] == c);
        assert(ds.push(c).drop_first() =~= Seq::<char>::empty());
        assert(digits_val_from(ds.push(c), acc) == digits_val_from(
            Seq::<char>::empty(),
            acc * 10 + digit_val(c),
        ));
    } else {
        assert(ds.push(c)[0] == ds[0]);
        assert(ds.push(c).drop_first() =~= ds.drop_first().push(c));
        lemma_digits_val_push(ds.drop_first(), c, acc * 10 + digit_val(ds[0]));
    }
}

proof fn lemma_dec_digits_val(n: nat, acc: nat)
    ensures
        digits_val_from(dec_digits(n), acc) == acc * pow10(dec_digits(n).len()) + n,
    decreases n,
{
    reveal_with_fuel(digits_val_from, 3);
    reveal_with_fuel(pow10, 2);
    if n < 10 {
        assert(dec_digits(n) == seq![digit_char(n)]);
        assert(dec_digits(n)[0] == digit_char(n));
        assert(dec_digits(n).drop_first() =~= Seq::<char>::empty());
        assert(digits_val_from(dec_digits(n), acc) == digits_val_from(
            Seq::<char>::empty(),
            acc * 10 + digit_val(digit_char(n)),
        ));
        assert(digit_val(digit_char(n)) == n);
        assert(pow10(1) == 10 * pow10(0));
        assert(acc * 10 + n == acc * pow10(1) + n) by (nonlinear_arith)
            requires
                pow10(1) == 10,
        ;
    } else {
        let pre = dec_digits(n / 10);
        assert(dec_digits(n) == pre.push(digit_char(n % 10)));
        lemma_digits_val_push(pre, digit_char(n % 10), acc);
        lemma_dec_digits_val(n / 10, acc);
        assert(digit_val(digit_char(n % 10)) == n % 10);
        assert(dec_digits(n).len() == pre.len() + 1);
        assert(pow10(pre.len() + 1) == 10 * pow10(pre.len()));
        assert((acc * pow10(pre.len()) + n / 10) * 10 + n % 10 == acc * (10 * pow10(pre.len()))
            + ((n / 10) * 10 + n % 10)) by (nonlinear_arith);
        assert((n / 10) * 10 + n % 10 == n) by {
            vstd::arithmetic::div_mod::lemma_fundamental_div_mod(n as int, 10);
        }
    }
}

proof fn lemma_parse_digits_run(s: Seq<char>, i: int, ds: Seq<char>, acc: nat)
    requires
        text_at(s, i, ds),
        all_digits(ds),
        i + ds.len() == s.len() || !is_digit(s[i + ds.len()]),
    ensures
        spec_parse_digits(s, i, acc) == (digits_val_from(ds, acc), i + ds.len()),
    decreases ds.len(),
{
    if ds.len() == 0 {
    } else {
        assert(s.subrange(i, i + ds.len())[0] == s[i]);
        assert(s[i] == ds[0]);
        assert(is_digit(ds[0]));
        assert(text_at(s, i + 1, ds.drop_first())) by {
            assert(s.subrange(i + 1, i + ds.len()) =~= ds.drop_first()) by {
                assert forall|k: int|
                    0 <= k < ds.len() - 1 implies s.subrange(i + 1, i + ds.len())[k]
                    == ds.drop_first()[k] by {
                    assert(s.subrange(i, i + ds.len())[k + 1] == ds[k + 1]);
                }
            }
        }
        lemma_parse_digits_run(s, i + 1, ds.drop_first(), acc * 10 + digit_val(ds[0]));
    }
}

proof fn lemma_parse_digits_monotone(s: Seq<char>, i: int, acc: nat)
    ensures
        spec_parse_digits(s, i, acc).0 >= acc,
    decreases s.len() - i,
{
    if 0 <= i < s.len() && is_digit(s[i]) {
        lemma_parse_digits_monotone(s, i + 1, acc * 10 + digit_val(s[i]));
        assert(acc * 10 + digit_val(s[i]) >= acc) by (nonlinear_arith);
    }
}

proof fn lemma_parse_usize_rt(s: Seq<char>, i: int, n: nat)
    requires
        text_at(s, i, dec_digits(n)),
        n <= usize::MAX,
        i + dec_digits(n).len() == s.len() || !is_digit(s[i + dec_digits(n).len()]),
    ensures
        spec_parse_usize(s, i) == Some((n, i + dec_digits(n).len())),
{
    lemma_dec_digits_shape(n);
    let ds = dec_digits(n);
    assert(s.subrange(i, i + ds.len())[0] == s[i]);
    assert(s[i] == ds[0]);
    if n == 0 {
        assert(ds == seq![digit_char(0)]);
        assert(s[i] == '0');
    } else {
        assert(s[i] != '0');
        assert(is_digit(s[i]));
        lemma_parse_digits_run(s, i, ds, 0);
        lemma_dec_digits_val(n, 0);
        assert(0 * pow10(ds.len()) == 0) by (nonlinear_arith);
    }
}

// ------------------------------------------------------------------
// exec: string and number layer
// ------------------------------------------------------------------

fn is_digit_exec(c: char) -> (r: bool)
    ensures
        r == is_digit(c),
{
    c as u32 >= 48 && c as u32 <= 57
}

/// Append the characters of `lit` to `out`.
fn push_lit(out: &mut Vec<char>, lit: &str)
    ensures
        final(out)@ == old(out)@ + lit@,
{
    let cs = crate::text::chars_of_str(lit);
    let mut k: usize = 0;
    while k < cs.len()
        invariant
            k <= cs@.len(),
            cs@ == lit@,
            out@ == old(out)@ + lit@.subrange(0, k as int),
        decreases cs.len() - k,
    {
        out.push(cs[k]);
        proof {
            assert(out@ =~= old(out)@ + lit@.subrange(0, k + 1 as int));
        }
        k = k + 1;
    }
    proof {
        assert(lit@.subrange(0, lit@.len() as int) =~= lit@);
    }
}

proof fn lemma_enc_body_push(t: Seq<char>, c: char)
    ensures
        enc_str_body(t.push(c)) == enc_str_body(t) + esc_char(c),
    decreases t.len(),
{
    reveal_with_fuel(enc_str_body, 3);
    if t.len() == 0 {
        assert(t.push(c)[0] == c);
        assert(t.push(c).drop_first() =~= Seq::<char>::empty());
        assert(enc_str_body(t.push(c)) == esc_char(c) + enc_str_body(Seq::<char>::empty()));
        assert(esc_char(c) + Seq::<char>::empty() =~= esc_char(c));
        assert(enc_str_body(t) + esc_char(c) =~= esc_char(c));
    } else {
        assert(t.push(c)[0] == t[0]);
        assert(t.push(c).drop_first() =~= t.drop_first().push(c));
        lemma_enc_body_push(t.drop_first(), c);
        assert(esc_char(t[0]) + (enc_str_body(t.drop_first()) + esc_char(c)) =~= (esc_char(t[0])
            + enc_str_body(t.drop_first())) + esc_char(c));
    }
}

/// Append the quoted, escaped form of `s` to `out`.
fn push_string_enc(out: &mut Vec<char>, s: &str)
    ensures
        final(out)@ == old(out)@ + enc_string(s@),
{
    let cs = crate::text::chars_of_str(s);
    out.push('"');
    let mut k: usize = 0;
    while k < cs.len()
        invariant
            k <= cs@.len(),
            cs@ == s@,
            out@ == old(out)@ + seq!['"'] + enc_str_body(s@.subrange(0, k as int)),
        decreases cs.len() - k,
    {
        let ghost pre = s@.subrange(0, k as int);
        let c = cs[k];
        if c == '"' {
            out.push('\\');
            out.push('"');
        } else if c == '\\' {
            out.push('\\');
            out.push('\\');
        } else if c == '\n' {
            out.push('\\');
            out.push('n');
        } else if c == '\r' {
            out.push('\\');
            out.push('r');
        } else if c == '\t' {
            out.push('\\');
            out.push('t');
        } else {
            out.push(c);
        }
        proof {
            lemma_enc_body_push(pre, c);
            assert(pre.push(c) =~= s@.subrange(0, k + 1 as int));
            assert(out@ =~= old(out)@ + seq!['"'] + enc_str_body(s@.subrange(0, k + 1 as int)));
        }
        k = k + 1;
    }
    out.push('"');
    proof {
        assert(s@.subrange(0, s@.len() as int) =~= s@);
        assert(out@ =~= old(out)@ + enc_string(s@));
    }
}

fn digit_char_exec(d: usize) -> (r: char)
    requires
        d < 10,
    ensures
        r == digit_char(d as nat),
{
    if d == 0 {
        '0'
    } else if d == 1 {
        '1'
    } else if d == 2 {
        '2'
    } else if d == 3 {
        '3'
    } else if d == 4 {
        '4'
    } else if d == 5 {
        '5'
    } else if d == 6 {
        '6'
    } else if d == 7 {
        '7'
    } else if d == 8 {
        '8'
    } else {
        '9'
    }
}

/// Append the canonical decimal digits of `n` to `out`.
fn push_usize(out: &mut Vec<char>, n: usize)
    ensures
        final(out)@ == old(out)@ + dec_digits(n as nat),
    decreases n,
{
    if n < 10 {
        out.push(digit_char_exec(n));
        proof {
            assert(out@ =~= old(out)@ + dec_digits(n as nat));
        }
    } else {
        push_usize(out, n / 10);
        out.push(digit_char_exec(n % 10));
        proof {
            assert(out@ =~= old(out)@ + dec_digits(n as nat));
        }
    }
}

/// Read the token `lit` at position `i`.
fn expect_lit(s: &Vec<char>, i: usize, lit: &str) -> (r: Option<usize>)
    ensures
        match r {
            Some(j) => spec_expect(s@, i as int, lit@) == Some(j as int) && i <= j <= s@.len(),
            None => spec_expect(s@, i as int, lit@) == None::<int>,
        },
{
    let cs = crate::text::chars_of_str(lit);
    let m = cs.len();
    let sl = s.len();
    if i > sl || m > sl - i {
        return None;
    }
    let mut k: usize = 0;
    while k < m
        invariant
            k <= m,
            m == lit@.len(),
            cs@ == lit@,
            sl == s@.len(),
            i + m <= sl,
            forall|t: int| 0 <= t < k ==> s@[i + t] == lit@[t],
        decreases m - k,
    {
        if s[i + k] != cs[k] {
            proof {
                assert(s@.subrange(i as int, i + m as int)[k as int] != lit@[k as int]);
            }
            return None;
        }
        k = k + 1;
    }
    proof {
        assert(s@.subrange(i as int, i + m as int) =~= lit@);
    }
    Some(i + m)
}

fn unesc_exec(c: char) -> (r: Option<char>)
    ensures
        r == unesc(c),
{
    if c == '"' {
        Some('"')
    } else if c == '\\' {
        Some('\\')
    } else if c == 'n' {
        Some('\n')
    } else if c == 'r' {
        Some('\r')
    } else if c == 't' {
        Some('\t')
    } else {
        None
    }
}

/// Read a quoted string at position `i`.
fn parse_string_at(s: &Vec<char>, i: usize) -> (r: Option<(String, usize)>)
    ensures
        match r {
            Some(p) => spec_parse_string(s@, i as int) == Some((p.0@, p.1 as int)) && i < p.1
                <= s@.len(),
            None => spec_parse_string(s@, i as int) == None::<(Seq<char>, int)>,
        },
{
    if i >= s.len() || s[i] != '"' {
        return None;
    }
    let mut acc: Vec<char> = Vec::new();
    let mut j: usize = i + 1;
    while j < s.len()
        invariant
            i + 1 <= j <= s@.len(),
            s@[i as int] == '"',
            (match spec_parse_str_body(s@, j as int) {
                Some(p) => spec_parse_str_body(s@, i + 1 as int) == Some((acc@ + p.0, p.1)),
                None => spec_parse_str_body(s@, i + 1 as int) == None::<(Seq<char>, int)>,
            }),
        decreases s@.len() - j,
    {
        let c = s[j];
        if c == '"' {
            proof {
                assert(acc@ + Seq::<char>::empty() =~= acc@);
            }
            let st = string_from_chars(&acc);
            return Some((st, j + 1));
        } else if c == '\\' {
            if j + 1 >= s.len() {
                return None;
            }
            match unesc_exec(s[j + 1]) {
                Some(e) => {
                    let ghost accg = acc@;
                    acc.push(e);
                    proof {
                        match spec_parse_str_body(s@, j + 2 as int) {
                            Some(p) => {
                                assert(accg + (seq![e] + p.0) =~= acc@ + p.0);
                            },
                            None => {},
                        }
                    }
                    j = j + 2;
                },
                None => {
                    return None;
                },
            }
        } else {
            let ghost accg = acc@;
            acc.push(c);
            proof {
                match spec_parse_str_body(s@, j + 1 as int) {
                    Some(p) => {
                        assert(accg + (seq![c] + p.0) =~= acc@ + p.0);
                    },
                    None => {},
                }
            }
            j = j + 1;
        }
    }
    None
}

/// Read a canonical decimal that fits in `usize` at position `i`.
fn parse_usize_at(s: &Vec<char>, i: usize) -> (r: Option<(usize, usize)>)
    ensures
        match r {
            Some(p) => spec_parse_usize(s@, i as int) == Some((p.0 as nat, p.1 as int)) && i < p.1
                <= s@.len(),
            None => spec_parse_usize(s@, i as int) == None::<(nat, int)>,
        },
{
    if i >= s.len() || !is_digit_exec(s[i]) {
        return None;
    }
    if s[i] == '0' {
        return Some((0, i + 1));
    }
    let mut acc: usize = 0;
    let mut j: usize = i;
    while j < s.len() && is_digit_exec(s[j])
        invariant
            i <= j <= s@.len(),
            0 <= i < s@.len(),
            is_digit(s@[i as int]),
            s@[i as int] != '0',
            spec_parse_digits(s@, i as int, 0) == spec_parse_digits(s@, j as int, acc as nat),
        decreases s@.len() - j,
    {
        let d = (s[j] as u32 - 48) as usize;
        if acc > (usize::MAX - d) / 10 {
            proof {
                let a2 = (acc * 10 + d) as nat;
                assert(acc * 10 + d > usize::MAX) by {
                    vstd::arithmetic::div_mod::lemma_fundamental_div_mod(
                        (usize::MAX - d) as int,
                        10,
                    );
                    assert(acc >= (usize::MAX - d) / 10 + 1);
                    assert(acc * 10 >= ((usize::MAX - d) / 10 + 1) * 10) by (nonlinear_arith)
                        requires
                            acc >= (usize::MAX - d) / 10 + 1,
                    ;
                }
                assert(spec_parse_digits(s@, j as int, acc as nat) == spec_parse_digits(
                    s@,
                    j + 1 as int,
                    a2,
                ));
                lemma_parse_digits_monotone(s@, j + 1 as int, a2);
                assert(spec_parse_digits(s@, i as int, 0).0 > usize::MAX);
            }
            return None;
        }
        acc = acc * 10 + d;
        j = j + 1;
    }
    proof {
        assert(spec_parse_digits(s@, j as int, acc as nat) == (acc as nat, j as int));
    }
    Some((acc, j))
}

// ------------------------------------------------------------------
// structures: spec encoding
// ------------------------------------------------------------------

pub open spec fn tok_card_open() -> Seq<char> {
    ("{\"id\":")@
}

pub open spec fn tok_card_word() -> Seq<char> {
    (",\"word\":")@
}

pub open spec fn tok_card_ans() -> Seq<char> {
    (",\"ans\":")@
}

pub open spec fn tok_card_remarks() -> Seq<char> {
    (",\"remarks\":")@
}

pub open spec fn tok_set_open() -> Seq<char> {
    ("{\"name\":")@
}

pub open spec fn tok_set_tags() -> Seq<char> {
    (",\"tags\":[")@
}

pub open spec fn tok_set_cards() -> Seq<char> {
    (",\"cards\":[")@
}

pub open spec fn tok_item_open() -> Seq<char> {
    ("{\"item_id\":")@
}

pub open spec fn tok_item_name() -> Seq<char> {
    (",\"item_name\":")@
}

pub open spec fn tok_item_tags() -> Seq<char> {
    (",\"item_tags\":[")@
}

pub open spec fn tok_item_num() -> Seq<char> {
    (",\"num_of_cards\":")@
}

pub open spec fn tok_cat_open() -> Seq<char> {
    ("{\"inventory\":[")@
}

/// One encoded card object.
pub open spec fn enc_card(c: CardV) -> Seq<char> {
    tok_card_open() + dec_digits(c.id) + tok_card_word() + enc_string(c.word) + tok_card_ans()
        + enc_string(c.ans) + tok_card_remarks() + enc_string(c.remarks) + seq!['}']
}

/// The items of a string array, from the first element on, closing bracket
/// included; the opening bracket belongs to the preceding token.
pub open spec fn enc_str_array(ts: Seq<Seq<char>>) -> Seq<char>
    decreases ts.len(), 1int,
{
    if ts.len() == 0 {
        seq![']']
    } else {
        enc_string(ts[0]) + enc_str_rest(ts.drop_first())
    }
}

/// The items of a string array after the first, each preceded by a comma,
/// closing bracket included.
pub open spec fn enc_str_rest(ts: Seq<Seq<char>>) -> Seq<char>
    decreases ts.len(), 0int,
{
    if ts.len() == 0 {
        seq![']']
    } else {
        seq![','] + enc_string(ts[0]) + enc_str_rest(ts.drop_first())
    }
}

/// The items of a card array, closing bracket included.
pub open spec fn enc_card_array(cs: Seq<CardV>) -> Seq<char>
    decreases cs.len(), 1int,
{
    if cs.len() == 0 {
        seq![']']
    } else {
        enc_card(cs[0]) + enc_card_rest(cs.drop_first())
    }
}

/// The items of a card array after the first, closing bracket included.
pub open spec fn enc_card_rest(cs: Seq<CardV>) -> Seq<char>
    decreases cs.len(), 0int,
{
    if cs.len() == 0 {
        seq![']']
    } else {
        seq![','] + enc_card(cs[0]) + enc_card_rest(cs.drop_first())
    }
}

/// One encoded study set object: the on-disk form of a set file.
pub open spec fn enc_study_set(v: StudySetV) -> Seq<char> {
    tok_set_open() + enc_string(v.name) + tok_set_tags() + enc_str_array(v.tags) + tok_set_cards()
        + enc_card_array(v.cards) + seq!['}']
}

/// One encoded catalogue entry.
pub open spec fn enc_item(it: ListItemV) -> Seq<char> {
    tok_item_open() + dec_digits(it.id) + tok_item_name() + enc_string(it.name) + tok_item_tags()
        + enc_str_array(it.tags) + tok_item_num() + dec_digits(it.num_of_cards) + seq!['}']
}

/// The items of a catalogue entry array, closing bracket included.
pub open spec fn enc_item_array(its: Seq<ListItemV>) -> Seq<char>
    decreases its.len(), 1int,
{
    if its.len() == 0 {
        seq![']']
    } else {
        enc_item(its[0]) + enc_item_rest(its.drop_first())
    }
}

/// The items of a catalogue entry array after the first, closing bracket
/// included.
pub open spec fn enc_item_rest(its: Seq<ListItemV>) -> Seq<char>
    decreases its.len(), 0int,
{
    if its.len() == 0 {
        seq![']']
    } else {
        seq![','] + enc_item(its[0]) + enc_item_rest(its.drop_first())
    }
}

/// One encoded catalogue object: the on-disk form of the inventory file.
pub open spec fn enc_catalogue(its: Seq<ListItemV>) -> Seq<char> {
    tok_cat_open() + enc_item_array(its) + seq!['}']
}

// ------------------------------------------------------------------
// structures: spec parsing
// ------------------------------------------------------------------

/// One card object read at position `i`.
pub open spec fn spec_parse_card(s: Seq<char>, i: int) -> Option<(CardV, int)> {
    match spec_expect(s, i, tok_card_open()) {
        None => None,
        Some(j1) => match spec_parse_usize(s, j1) {
            None => None,
            Some((idv, j2)) => match spec_expect(s, j2, tok_card_word()) {
                None => None,
                Some(j3) => match spec_parse_string(s, j3) {
                    None => None,
                    Some((w, j4)) => match spec_expect(s, j4, tok_card_ans()) {
                        None => None,
                        Some(j5) => match spec_parse_string(s, j5) {
                            None => None,
                            Some((a, j6)) => match spec_expect(s, j6, tok_card_remarks()) {
                                None => None,
                                Some(j7) => match spec_parse_string(s, j7) {
                                    None => None,
                                    Some((rm, j8)) => match spec_expect(s, j8, seq!['}']) {
                                        None => None,
                                        Some(j9) => Some(
                                            (
                                                CardV { id: idv, word: w, ans: a, remarks: rm },
                                                j9,
                                            ),
                                        ),
                                    },
                                },
                            },
                        },
                    },
                },
            },
        },
    }
}

/// A string array read at position `i` (after the opening bracket), closing
/// bracket included.
pub open spec fn spec_parse_str_items(s: Seq<char>, i: int) -> Option<(Seq<Seq<char>>, int)>
    decreases s.len() - i, 1int,
{
    if i < 0 || i >= s.len() {
        None
    } else if s[i] == ']' {
        Some((Seq::empty(), i + 1))
    } else {
        match spec_parse_string(s, i) {
            None => None,
            Some((t, j)) => if i < j <= s.len() {
                match spec_parse_str_rest(s, j) {
                    None => None,
                    Some((ts, k)) => Some((seq![t] + ts, k)),
                }
            } else {
                None
            },
        }
    }
}

/// The rest of a string array: a closing bracket, or a comma and another
/// element.
pub open spec fn spec_parse_str_rest(s: Seq<char>, i: int) -> Option<(Seq<Seq<char>>, int)>
    decreases s.len() - i, 0int,
{
    if i < 0 || i >= s.len() {
        None
    } else if s[i] == ']' {
        Some((Seq::empty(), i + 1))
    } else if s[i] == ',' {
        match spec_parse_string(s, i + 1) {
            None => None,
            Some((t, j)) => if i + 1 < j <= s.len() {
                match spec_parse_str_rest(s, j) {
                    None => None,
                    Some((ts, k)) => Some((seq![t] + ts, k)),
                }
            } else {
                None
            },
        }
    } else {
        None
    }
}

/// A card array read at position `i`, closing bracket included.
pub open spec fn spec_parse_card_items(s: Seq<char>, i: int) -> Option<(Seq<CardV>, int)>
    decreases s.len() - i, 1int,
{
    if i < 0 || i >= s.len() {
        None
    } else if s[i] == ']' {
        Some((Seq::empty(), i + 1))
    } else {
        match spec_parse_card(s, i) {
            None => None,
            Some((c, j)) => if i < j <= s.len() {
                match spec_parse_card_rest(s, j) {
                    None => None,
                    Some((cs, k)) => Some((seq![c] + cs, k)),
                }
            } else {
                None
            },
        }
    }
}

/// The rest of a card array.
pub open spec fn spec_parse_card_rest(s: Seq<char>, i: int) -> Option<(Seq<CardV>, int)>
    decreases s.len() - i, 0int,
{
    if i < 0 || i >= s.len() {
        None
    } else if s[i] == ']' {
        Some((Seq::empty(), i + 1))
    } else if s[i] == ',' {
        match spec_parse_card(s, i + 1) {
            None => None,
            Some((c, j)) => if i + 1 < j <= s.len() {
                match spec_parse_card_rest(s, j) {
                    None => None,
                    Some((cs, k)) => Some((seq![c] + cs, k)),
                }
            } else {
                None
            },
        }
    } else {
        None
    }
}

/// One study set object read at position `i`.
pub open spec fn spec_parse_study_set_at(s: Seq<char>, i: int) -> Option<(StudySetV, int)> {
    match spec_expect(s, i, tok_set_open()) {
        None => None,
        Some(j1) => match spec_parse_string(s, j1) {
            None => None,
            Some((nm, j2)) => match spec_expect(s, j2, tok_set_tags()) {
                None => None,
                Some(j3) => match spec_parse_str_items(s, j3) {
                    None => None,
                    Some((tags, j4)) => match spec_expect(s, j4, tok_set_cards()) {
                        None => None,
                        Some(j5) => match spec_parse_card_items(s, j5) {
                            None => None,
                            Some((cards, j6)) => match spec_expect(s, j6, seq!['}']) {
                                None => None,
                                Some(j7) => Some(
                                    (StudySetV { name: nm, tags: tags, cards: cards }, j7),
                                ),
                            },
                        },
                    },
                },
            },
        },
    }
}

/// A whole set file: one study set object and nothing after it.
pub open spec fn spec_parse_study_set(s: Seq<char>) -> Option<StudySetV> {
    match spec_parse_study_set_at(s, 0) {
        None => None,
        Some((v, j)) => if j == s.len() {
            Some(v)
        } else {
            None
        },
    }
}

/// One catalogue entry object read at position `i`.
pub open spec fn spec_parse_item(s: Seq<char>, i: int) -> Option<(ListItemV, int)> {
    match spec_expect(s, i, tok_item_open()) {
        None => None,
        Some(j1) => match spec_parse_usize(s, j1) {
            None => None,
            Some((idv, j2)) => match spec_expect(s, j2, tok_item_name()) {
                None => None,
                Some(j3) => match spec_parse_string(s, j3) {
                    None => None,
                    Some((nm, j4)) => match spec_expect(s, j4, tok_item_tags()) {
                        None => None,
                        Some(j5) => match spec_parse_str_items(s, j5) {
                            None => None,
                            Some((tags, j6)) => match spec_expect(s, j6, tok_item_num()) {
                                None => None,
                                Some(j7) => match spec_parse_usize(s, j7) {
                                    None => None,
                                    Some((num, j8)) => match spec_expect(s, j8, seq!['}']) {
                                        None => None,
                                        Some(j9) => Some(
                                            (
                                                ListItemV {
                                                    id: idv,
                                                    name: nm,
                                                    tags: tags,
                                                    num_of_cards: num,
                                                },
                                                j9,
                                            ),
                                        ),
                                    },
                                },
                            },
                        },
                    },
                },
            },
        },
    }
}

/// A catalogue entry array read at position `i`, closing bracket included.
pub open spec fn spec_parse_item_items(s: Seq<char>, i: int) -> Option<(Seq<ListItemV>, int)>
    decreases s.len() - i, 1int,
{
    if i < 0 || i >= s.len() {
        None
    } else if s[i] == ']' {
        Some((Seq::empty(), i + 1))
    } else {
        match spec_parse_item(s, i) {
            None => None,
            Some((it, j)) => if i < j <= s.len() {
                match spec_parse_item_rest(s, j) {
                    None => None,
                    Some((its, k)) => Some((seq![it] + its, k)),
                }
            } else {
                None
            },
        }
    }
}

/// The rest of a catalogue entry array.
pub open spec fn spec_parse_item_rest(s: Seq<char>, i: int) -> Option<(Seq<ListItemV>, int)>
    decreases s.len() - i, 0int,
{
    if i < 0 || i >= s.len() {
        None
    } else if s[i] == ']' {
        Some((Seq::empty(), i + 1))
    } else if s[i] == ',' {
        match spec_parse_item(s, i + 1) {
            None => None,
            Some((it, j)) => if i + 1 < j <= s.len() {
                match spec_parse_item_rest(s, j) {
                    None => None,
                    Some((its, k)) => Some((seq![it] + its, k)),
                }
            } else {
                None
            },
        }
    } else {
        None
    }
}

/// One catalogue object read at position `i`.
pub open spec fn spec_parse_catalogue_at(s: Seq<char>, i: int) -> Option<(Seq<ListItemV>, int)> {
    match spec_expect(s, i, tok_cat_open()) {
        None => None,
        Some(j1) => match spec_parse_item_items(s, j1) {
            None => None,
            Some((its, j2)) => match spec_expect(s, j2, seq!['}']) {
                None => None,
                Some(j3) => Some((its, j3)),
            },
        },
    }
}

/// A whole inventory file: one catalogue object and nothing after it.
pub open spec fn spec_parse_catalogue(s: Seq<char>) -> Option<Seq<ListItemV>> {
    match spec_parse_catalogue_at(s, 0) {
        None => None,
        Some((its, j)) => if j == s.len() {
            Some(its)
        } else {
            None
        },
    }
}

// ------------------------------------------------------------------
// structures: round trip
// ------------------------------------------------------------------

/// Every card id fits in `usize` — true of the view of every real card.
pub open spec fn cards_fit(cs: Seq<CardV>) -> bool {
    forall|k: int| 0 <= k < cs.len() ==> #[trigger] cs[k].id <= usize::MAX
}

/// Every item id and card count fits in `usize` — true of the view of every
/// real catalogue entry.
pub open spec fn items_fit(its: Seq<ListItemV>) -> bool {
    forall|k: int|
        0 <= k < its.len() ==> #[trigger] its[k].id <= usize::MAX && its[k].num_of_cards
            <= usize::MAX
}

proof fn lemma_at_first(s: Seq<char>, i: int, t: Seq<char>)
    requires
        text_at(s, i, t),
        t.len() > 0,
    ensures
        s[i] == t[0],
        0 <= i < s.len(),
{
    assert(s.subrange(i, i + t.len())[0] == t[0]);
}

proof fn lemma_parse_card_rt(s: Seq<char>, i: int, c: CardV)
    requires
        text_at(s, i, enc_card(c)),
        c.id <= usize::MAX,
    ensures
        spec_parse_card(s, i) == Some((c, i + enc_card(c).len())),
{
    reveal_strlit("{\"id\":");
    reveal_strlit(",\"word\":");
    let a1 = tok_card_open();
    let a2 = dec_digits(c.id);
    let a3 = tok_card_word();
    let a4 = enc_string(c.word);
    let a5 = tok_card_ans();
    let a6 = enc_string(c.ans);
    let a7 = tok_card_remarks();
    let a8 = enc_string(c.remarks);
    let a9: Seq<char> = seq!['}'];
    lemma_at_concat(s, i, a1 + a2 + a3 + a4 + a5 + a6 + a7 + a8, a9);
    lemma_at_concat(s, i, a1 + a2 + a3 + a4 + a5 + a6 + a7, a8);
    lemma_at_concat(s, i, a1 + a2 + a3 + a4 + a5 + a6, a7);
    lemma_at_concat(s, i, a1 + a2 + a3 + a4 + a5, a6);
    lemma_at_concat(s, i, a1 + a2 + a3 + a4, a5);
    lemma_at_concat(s, i, a1 + a2 + a3, a4);
    lemma_at_concat(s, i, a1 + a2, a3);
    lemma_at_concat(s, i, a1, a2);
    let p2 = i + a1.len();
    let p3 = p2 + a2.len();
    let p4 = p3 + a3.len();
    let p5 = p4 + a4.len();
    let p6 = p5 + a5.len();
    let p7 = p6 + a6.len();
    let p8 = p7 + a7.len();
    let p9 = p8 + a8.len();
    lemma_expect_rt(s, i, a1);
    assert(a3.len() == 8);
    lemma_at_first(s, p3, a3);
    assert(s[p3] == ',');
    assert(!is_digit(','));
    lemma_parse_usize_rt(s, p2, c.id);
    lemma_expect_rt(s, p3, a3);
    lemma_parse_string_rt(s, p4, c.word);
    lemma_expect_rt(s, p5, a5);
    lemma_parse_string_rt(s, p6, c.ans);
    lemma_expect_rt(s, p7, a7);
    lemma_parse_string_rt(s, p8, c.remarks);
    lemma_expect_rt(s, p9, a9);
    assert(spec_parse_card(s, i) == Some(
        (CardV { id: c.id, word: c.word, ans: c.ans, remarks: c.remarks }, p9 + 1),
    ));
    assert(c == (CardV { id: c.id, word: c.word, ans: c.ans, remarks: c.remarks }));
}

proof fn lemma_parse_str_rest_rt(s: Seq<char>, i: int, ts: Seq<Seq<char>>)
    requires
        text_at(s, i, enc_str_rest(ts)),
    ensures
        spec_parse_str_rest(s, i) == Some((ts, i + enc_str_rest(ts).len())),
    decreases ts.len(),
{
    if ts.len() == 0 {
        lemma_at_first(s, i, enc_str_rest(ts));
        assert(s[i] == ']');
        assert(ts =~= Seq::<Seq<char>>::empty());
    } else {
        let comma: Seq<char> = seq![','];
        let e0 = enc_string(ts[0]);
        let rest = enc_str_rest(ts.drop_first());
        lemma_at_concat(s, i, comma + e0, rest);
        lemma_at_concat(s, i, comma, e0);
        lemma_at_first(s, i, comma);
        assert(s[i] == ',');
        lemma_parse_string_rt(s, i + 1, ts[0]);
        let j = i + 1 + e0.len();
        lemma_parse_str_rest_rt(s, j, ts.drop_first());
        assert(seq![ts[0]] + ts.drop_first() =~= ts);
    }
}

proof fn lemma_parse_str_items_rt(s: Seq<char>, i: int, ts: Seq<Seq<char>>)
    requires
        text_at(s, i, enc_str_array(ts)),
    ensures
        spec_parse_str_items(s, i) == Some((ts, i + enc_str_array(ts).len())),
{
    if ts.len() == 0 {
        lemma_at_first(s, i, enc_str_array(ts));
        assert(s[i] == ']');
        assert(ts =~= Seq::<Seq<char>>::empty());
    } else {
        let e0 = enc_string(ts[0]);
        let rest = enc_str_rest(ts.drop_first());
        lemma_at_concat(s, i, e0, rest);
        lemma_at_first(s, i, e0);
        assert(e0[0] == '"');
        assert(s[i] != ']');
        lemma_parse_string_rt(s, i, ts[0]);
        let j = i + e0.len();
        lemma_parse_str_rest_rt(s, j, ts.drop_first());
        assert(seq![ts[0]] + ts.drop_first() =~= ts);
    }
}

proof fn lemma_parse_card_rest_rt(s: Seq<char>, i: int, cs: Seq<CardV>)
    requires
        text_at(s, i, enc_card_rest(cs)),
        cards_fit(cs),
    ensures
        spec_parse_card_rest(s, i) == Some((cs, i + enc_card_rest(cs).len())),
    decreases cs.len(),
{
    if cs.len() == 0 {
        lemma_at_first(s, i, enc_card_rest(cs));
        assert(s[i] == ']');
        assert(cs =~= Seq::<CardV>::empty());
    } else {
        let comma: Seq<char> = seq![','];
        let e0 = enc_card(cs[0]);
        let rest = enc_card_rest(cs.drop_first());
        lemma_at_concat(s, i, comma + e0, rest);
        lemma_at_concat(s, i, comma, e0);
        lemma_at_first(s, i, comma);
        assert(s[i] == ',');
        assert(cs[0].id <= usize::MAX);
        lemma_parse_card_rt(s, i + 1, cs[0]);
        let j = i + 1 + e0.len();
        assert(cards_fit(cs.drop_first())) by {
            assert forall|k: int|
                0 <= k < cs.drop_first().len() implies #[trigger] cs.drop_first()[k].id
                <= usize::MAX by {
                assert(cs.drop_first()[k] == cs[k + 1]);
            }
        }
        lemma_parse_card_rest_rt(s, j, cs.drop_first());
        assert(seq![cs[0]] + cs.drop_first() =~= cs);
    }
}

proof fn lemma_parse_card_items_rt(s: Seq<char>, i: int, cs: Seq<CardV>)
    requires
        text_at(s, i, enc_card_array(cs)),
        cards_fit(cs),
    ensures
        spec_parse_card_items(s, i) == Some((cs, i + enc_card_array(cs).len())),
{
    reveal_strlit("{\"id\":");
    if cs.len() == 0 {
        lemma_at_first(s, i, enc_card_array(cs));
        assert(s[i] == ']');
        assert(cs =~= Seq::<CardV>::empty());
    } else {
        let e0 = enc_card(cs[0]);
        let rest = enc_card_rest(cs.drop_first());
        lemma_at_concat(s, i, e0, rest);
        lemma_at_first(s, i, e0);
        assert(tok_card_open().len() == 6);
        assert(tok_card_open()[0] == '{');
        assert(e0[0] == '{');
        assert(s[i] != ']');
        assert(cs[0].id <= usize::MAX);
        lemma_parse_card_rt(s, i, cs[0]);
        let j = i + e0.len();
        assert(cards_fit(cs.drop_first())) by {
            assert forall|k: int|
                0 <= k < cs.drop_first().len() implies #[trigger] cs.drop_first()[k].id
                <= usize::MAX by {
                assert(cs.drop_first()[k] == cs[k + 1]);
            }
        }
        lemma_parse_card_rest_rt(s, j, cs.drop_first());
        assert(seq![cs[0]] + cs.drop_first() =~= cs);
    }
}

proof fn lemma_parse_study_set_rt(s: Seq<char>, i: int, v: StudySetV)
    requires
        text_at(s, i, enc_study_set(v)),
        cards_fit(v.cards),
    ensures
        spec_parse_study_set_at(s, i) == Some((v, i + enc_study_set(v).len())),
{
    let b1 = tok_set_open();
    let b2 = enc_string(v.name);
    let b3 = tok_set_tags();
    let b4 = enc_str_array(v.tags);
    let b5 = tok_set_cards();
    let b6 = enc_card_array(v.cards);
    let b7: Seq<char> = seq!['}'];
    lemma_at_concat(s, i, b1 + b2 + b3 + b4 + b5 + b6, b7);
    lemma_at_concat(s, i, b1 + b2 + b3 + b4 + b5, b6);
    lemma_at_concat(s, i, b1 + b2 + b3 + b4, b5);
    lemma_at_concat(s, i, b1 + b2 + b3, b4);
    lemma_at_concat(s, i, b1 + b2, b3);
    lemma_at_concat(s, i, b1, b2);
    let p2 = i + b1.len();
    let p3 = p2 + b2.len();
    let p4 = p3 + b3.len();
    let p5 = p4 + b4.len();
    let p6 = p5 + b5.len();
    let p7 = p6 + b6.len();
    lemma_expect_rt(s, i, b1);
    lemma_parse_string_rt(s, p2, v.name);
    lemma_expect_rt(s, p3, b3);
    lemma_parse_str_items_rt(s, p4, v.tags);
    lemma_expect_rt(s, p5, b5);
    lemma_parse_card_items_rt(s, p6, v.cards);
    lemma_expect_rt(s, p7, b7);
    assert(v == (StudySetV { name: v.name, tags: v.tags, cards: v.cards }));
}

proof fn lemma_parse_item_rt(s: Seq<char>, i: int, it: ListItemV)
    requires
        text_at(s, i, enc_item(it)),
        it.id <= usize::MAX,
        it.num_of_cards <= usize::MAX,
    ensures
        spec_parse_item(s, i) == Some((it, i + enc_item(it).len())),
{
    reveal_strlit("{\"item_id\":");
    reveal_strlit(",\"item_name\":");
    let a1 = tok_item_open();
    let a2 = dec_digits(it.id);
    let a3 = tok_item_name();
    let a4 = enc_string(it.name);
    let a5 = tok_item_tags();
    let a6 = enc_str_array(it.tags);
    let a7 = tok_item_num();
    let a8 = dec_digits(it.num_of_cards);
    let a9: Seq<char> = seq!['}'];
    lemma_at_concat(s, i, a1 + a2 + a3 + a4 + a5 + a6 + a7 + a8, a9);
    lemma_at_concat(s, i, a1 + a2 + a3 + a4 + a5 + a6 + a7, a8);
    lemma_at_concat(s, i, a1 + a2 + a3 + a4 + a5 + a6, a7);
    lemma_at_concat(s, i, a1 + a2 + a3 + a4 + a5, a6);
    lemma_at_concat(s, i, a1 + a2 + a3 + a4, a5);
    lemma_at_concat(s, i, a1 + a2 + a3, a4);
    lemma_at_concat(s, i, a1 + a2, a3);
    lemma_at_concat(s, i, a1, a2);
    let p2 = i + a1.len();
    let p3 = p2 + a2.len();
    let p4 = p3 + a3.len();
    let p5 = p4 + a4.len();
    let p6 = p5 + a5.len();
    let p7 = p6 + a6.len();
    let p8 = p7 + a7.len();
    let p9 = p8 + a8.len();
    lemma_expect_rt(s, i, a1);
    assert(a3.len() == 13);
    lemma_at_first(s, p3, a3);
    assert(s[p3] == ',');
    assert(!is_digit(','));
    lemma_parse_usize_rt(s, p2, it.id);
    lemma_expect_rt(s, p3, a3);
    lemma_parse_string_rt(s, p4, it.name);
    lemma_expect_rt(s, p5, a5);
    lemma_parse_str_items_rt(s, p6, it.tags);
    lemma_expect_rt(s, p7, a7);
    lemma_at_first(s, p9, a9);
    assert(s[p9] == '}');
    assert(!is_digit('}'));
    lemma_parse_usize_rt(s, p8, it.num_of_cards);
    lemma_expect_rt(s, p9, a9);
    assert(it == (ListItemV {
        id: it.id,
        name: it.name,
        tags: it.tags,
        num_of_cards: it.num_of_cards,
    }));
}

proof fn lemma_parse_item_rest_rt(s: Seq<char>, i: int, its: Seq<ListItemV>)
    requires
        text_at(s, i, enc_item_rest(its)),
        items_fit(its),
    ensures
        spec_parse_item_rest(s, i) == Some((its, i + enc_item_rest(its).len())),
    decreases its.len(),
{
    if its.len() == 0 {
        lemma_at_first(s, i, enc_item_rest(its));
        assert(s[i] == ']');
        assert(its =~= Seq::<ListItemV>::empty());
    } else {
        let comma: Seq<char> = seq![','];
        let e0 = enc_item(its[0]);
        let rest = enc_item_rest(its.drop_first());
        lemma_at_concat(s, i, comma + e0, rest);
        lemma_at_concat(s, i, comma, e0);
        lemma_at_first(s, i, comma);
        assert(s[i] == ',');
        assert(its[0].id <= usize::MAX && its[0].num_of_cards <= usize::MAX);
        lemma_parse_item_rt(s, i + 1, its[0]);
        let j = i + 1 + e0.len();
        assert(items_fit(its.drop_first())) by {
            assert forall|k: int|
                0 <= k < its.drop_first().len() implies #[trigger] its.drop_first()[k].id
                <= usize::MAX && its.drop_first()[k].num_of_cards <= usize::MAX by {
                assert(its.drop_first()[k] == its[k + 1]);
            }
        }
        lemma_parse_item_rest_rt(s, j, its.drop_first());
        assert(seq![its[0]] + its.drop_first() =~= its);
    }
}

proof fn lemma_parse_item_items_rt(s: Seq<char>, i: int, its: Seq<ListItemV>)
    requires
        text_at(s, i, enc_item_array(its)),
        items_fit(its),
    ensures
        spec_parse_item_items(s, i) == Some((its, i + enc_item_array(its).len())),
{
    reveal_strlit("{\"item_id\":");
    if its.len() == 0 {
        lemma_at_first(s, i, enc_item_array(its));
        assert(s[i] == ']');
        assert(its =~= Seq::<ListItemV>::empty());
    } else {
        let e0 = enc_item(its[0]);
        let rest = enc_item_rest(its.drop_first());
        lemma_at_concat(s, i, e0, rest);
        lemma_at_first(s, i, e0);
        assert(tok_item_open().len() == 11);
        assert(tok_item_open()[0] == '{');
        assert(e0[0] == '{');
        assert(s[i] != ']');
        assert(its[0].id <= usize::MAX && its[0].num_of_cards <= usize::MAX);
        lemma_parse_item_rt(s, i, its[0]);
        let j = i + e0.len();
        assert(items_fit(its.drop_first())) by {
            assert forall|k: int|
                0 <= k < its.drop_first().len() implies #[trigger] its.drop_first()[k].id
                <= usize::MAX && its.drop_first()[k].num_of_cards <= usize::MAX by {
                assert(its.drop_first()[k] == its[k + 1]);
            }
        }
        lemma_parse_item_rest_rt(s, j, its.drop_first());
        assert(seq![its[0]] + its.drop_first() =~= its);
    }
}

/// Round-trip law for set files: a study set written in the file format and
/// read back is recovered exactly — name, tags in order, cards in order,
/// ids included.
pub proof fn lemma_study_set_round_trip(v: StudySetV)
    requires
        cards_fit(v.cards),
    ensures
        spec_parse_study_set(enc_study_set(v)) == Some(v),
{
    let s = enc_study_set(v);
    assert(s.subrange(0, s.len() as int) =~= s);
    lemma_parse_study_set_rt(s, 0, v);
}

/// Round-trip law for the inventory file: a catalogue written in the file
/// format and read back is recovered exactly, item order and every field
/// preserved.
pub proof fn lemma_catalogue_round_trip(its: Seq<ListItemV>)
    requires
        items_fit(its),
    ensures
        spec_parse_catalogue(enc_catalogue(its)) == Some(its),
{
    let s = enc_catalogue(its);
    assert(s.subrange(0, s.len() as int) =~= s);
    let c1 = tok_cat_open();
    let c2 = enc_item_array(its);
    let c3: Seq<char> = seq!['}'];
    lemma_at_concat(s, 0, c1 + c2, c3);
    lemma_at_concat(s, 0, c1, c2);
    lemma_expect_rt(s, 0, c1);
    lemma_parse_item_items_rt(s, c1.len() as int, its);
    lemma_expect_rt(s, c1.len() + c2.len() as int, c3);
}

/// The round-trip law holds of every real study set: writing it and reading
/// the text back recovers its view exactly.
pub proof fn lemma_study_set_file_round_trip(s: &StudySet)
    ensures
        spec_parse_study_set(enc_study_set(s@)) == Some(s@),
{
    crate::study_set::lemma_view_ids_bounded(s);
    lemma_study_set_round_trip(s@);
}

/// The round-trip law holds of every real catalogue: writing it and reading
/// the text back recovers its view exactly.
pub proof fn lemma_catalogue_file_round_trip(c: &Catalogue)
    ensures
        spec_parse_catalogue(enc_catalogue(c@)) == Some(c@),
{
    crate::catalogue::lemma_view_items_bounded(c);
    lemma_catalogue_round_trip(c@);
}

// ------------------------------------------------------------------
// structures: exec encoding
// ------------------------------------------------------------------

fn encode_card_into(out: &mut Vec<char>, c: &Card)
    ensures
        final(out)@ == old(out)@ + enc_card(c@),
{
    push_lit(out, "{\"id\":");
    push_usize(out, c.get_id());
    push_lit(out, ",\"word\":");
    let w = c.get_word();
    push_string_enc(out, w.as_str());
    push_lit(out, ",\"ans\":");
    let a = c.get_ans();
    push_string_enc(out, a.as_str());
    push_lit(out, ",\"remarks\":");
    let r = c.get_remarks();
    push_string_enc(out, r.as_str());
    out.push('}');
    proof {
        assert(out@ =~= old(out)@ + enc_card(c@));
    }
}

fn encode_str_array_into(out: &mut Vec<char>, ts: &Vec<String>)
    ensures
        final(out)@ == old(out)@ + enc_str_array(ts.deep_view()),
{
    let ghost full = ts.deep_view();
    if ts.len() == 0 {
        out.push(']');
        proof {
            assert(out@ =~= old(out)@ + enc_str_array(full));
        }
        return ;
    }
    push_string_enc(out, ts[0].as_str());
    proof {
        assert(full[0] == ts@[0]@);
        assert(full.drop_first() =~= full.skip(1));
        assert(out@ + enc_str_rest(full.skip(1)) =~= old(out)@ + enc_str_array(full));
    }
    let mut k: usize = 1;
    while k < ts.len()
        invariant
            1 <= k <= full.len(),
            full == ts.deep_view(),
            full.len() == ts@.len(),
            out@ + enc_str_rest(full.skip(k as int)) == old(out)@ + enc_str_array(full),
        decreases ts.len() - k,
    {
        let ghost prev = out@;
        out.push(',');
        push_string_enc(out, ts[k].as_str());
        proof {
            let rest_k = full.skip(k as int);
            assert(rest_k[0] == full[k as int]);
            assert(full[k as int] == ts@[k as int]@);
            assert(rest_k.drop_first() =~= full.skip(k + 1 as int));
            assert(out@ + enc_str_rest(full.skip(k + 1 as int)) =~= prev + enc_str_rest(rest_k));
        }
        k = k + 1;
    }
    proof {
        assert(full.skip(full.len() as int) =~= Seq::<Seq<char>>::empty());
    }
    out.push(']');
    proof {
        assert(out@ =~= old(out)@ + enc_str_array(full));
    }
}

fn encode_card_array_into(out: &mut Vec<char>, cs: &Vec<Card>)
    ensures
        final(out)@ == old(out)@ + enc_card_array(cs.deep_view()),
{
    let ghost full = cs.deep_view();
    if cs.len() == 0 {
        out.push(']');
        proof {
            assert(out@ =~= old(out)@ + enc_card_array(full));
        }
        return ;
    }
    encode_card_into(out, &cs[0]);
    proof {
        assert(full[0] == cs@[0]@);
        assert(full.drop_first() =~= full.skip(1));
        assert(out@ + enc_card_rest(full.skip(1)) =~= old(out)@ + enc_card_array(full));
    }
    let mut k: usize = 1;
    while k < cs.len()
        invariant
            1 <= k <= full.len(),
            full == cs.deep_view(),
            full.len() == cs@.len(),
            out@ + enc_card_rest(full.skip(k as int)) == old(out)@ + enc_card_array(full),
        decreases cs.len() - k,
    {
        let ghost prev = out@;
        out.push(',');
        encode_card_into(out, &cs[k]);
        proof {
            let rest_k = full.skip(k as int);
            assert(rest_k[0] == full[k as int]);
            assert(full[k as int] == cs@[k as int]@);
            assert(rest_k.drop_first() =~= full.skip(k + 1 as int));
            assert(out@ + enc_card_rest(full.skip(k + 1 as int)) =~= prev + enc_card_rest(rest_k));
        }
        k = k + 1;
    }
    proof {
        assert(full.skip(full.len() as int) =~= Seq::<CardV>::empty());
    }
    out.push(']');
    proof {
        assert(out@ =~= old(out)@ + enc_card_array(full));
    }
}

/// Write a study set in the file format.
pub fn encode_study_set(s: &StudySet) -> (out: Vec<char>)
    ensures
        out@ == enc_study_set(s@),
{
    let mut out: Vec<char> = Vec::new();
    push_lit(&mut out, "{\"name\":");
    let nm = s.get_set_name();
    push_string_enc(&mut out, nm.as_str());
    push_lit(&mut out, ",\"tags\":[");
    let tags = s.get_all_tags();
    encode_str_array_into(&mut out, &tags);
    push_lit(&mut out, ",\"cards\":[");
    let cards = s.get_all_cards();
    encode_card_array_into(&mut out, &cards);
    out.push('}');
    proof {
        assert(out@ =~= enc_study_set(s@));
    }
    out
}

fn encode_item_into(out: &mut Vec<char>, it: &ListItem)
    ensures
        final(out)@ == old(out)@ + enc_item(it@),
{
    push_lit(out, "{\"item_id\":");
    push_usize(out, it.get_id());
    push_lit(out, ",\"item_name\":");
    let nm = it.get_name();
    push_string_enc(out, nm.as_str());
    push_lit(out, ",\"item_tags\":[");
    let tags = it.get_all_tags();
    encode_str_array_into(out, &tags);
    push_lit(out, ",\"num_of_cards\":");
    push_usize(out, it.get_num_of_cards());
    out.push('}');
    proof {
        assert(out@ =~= old(out)@ + enc_item(it@));
    }
}

fn encode_item_array_into(out: &mut Vec<char>, its: &Vec<ListItem>)
    ensures
        final(out)@ == old(out)@ + enc_item_array(its.deep_view()),
{
    let ghost full = its.deep_view();
    if its.len() == 0 {
        out.push(']');
        proof {
            assert(out@ =~= old(out)@ + enc_item_array(full));
        }
        return ;
    }
    encode_item_into(out, &its[0]);
    proof {
        assert(full[0] == its@[0]@);
        assert(full.drop_first() =~= full.skip(1));
        assert(out@ + enc_item_rest(full.skip(1)) =~= old(out)@ + enc_item_array(full));
    }
    let mut k: usize = 1;
    while k < its.len()
        invariant
            1 <= k <= full.len(),
            full == its.deep_view(),
            full.len() == its@.len(),
            out@ + enc_item_rest(full.skip(k as int)) == old(out)@ + enc_item_array(full),
        decreases its.len() - k,
    {
        let ghost prev = out@;
        out.push(',');
        encode_item_into(out, &its[k]);
        proof {
            let rest_k = full.skip(k as int);
            assert(rest_k[0] == full[k as int]);
            assert(full[k as int] == its@[k as int]@);
            assert(rest_k.drop_first() =~= full.skip(k + 1 as int));
            assert(out@ + enc_item_rest(full.skip(k + 1 as int)) =~= prev + enc_item_rest(rest_k));
        }
        k = k + 1;
    }
    proof {
        assert(full.skip(full.len() as int) =~= Seq::<ListItemV>::empty());
    }
    out.push(']');
    proof {
        assert(out@ =~= old(out)@ + enc_item_array(full));
    }
}

/// Write a catalogue in the inventory file format.
pub fn encode_catalogue(c: &Catalogue) -> (out: Vec<char>)
    ensures
        out@ == enc_catalogue(c@),
{
    let mut out: Vec<char> = Vec::new();
    push_lit(&mut out, "{\"inventory\":[");
    let items = c.get_inventory();
    encode_item_array_into(&mut out, &items);
    out.push('}');
    proof {
        assert(out@ =~= enc_catalogue(c@));
    }
    out
}

// ------------------------------------------------------------------
// structures: exec parsing
// ------------------------------------------------------------------

fn parse_card_at(s: &Vec<char>, i: usize) -> (r: Option<(Card, usize)>)
    ensures
        match r {
            Some(p) => spec_parse_card(s@, i as int) == Some((p.0@, p.1 as int)) && i < p.1
                <= s@.len(),
            None => spec_parse_card(s@, i as int) == None::<(CardV, int)>,
        },
{
    proof {
        reveal_strlit("}");
        assert(("}")@ =~= seq!['}']);
    }
    let j1 = match expect_lit(s, i, "{\"id\":") {
        Some(j) => j,
        None => {
            return None;
        },
    };
    let (idv, j2) = match parse_usize_at(s, j1) {
        Some(p) => p,
        None => {
            return None;
        },
    };
    let j3 = match expect_lit(s, j2, ",\"word\":") {
        Some(j) => j,
        None => {
            return None;
        },
    };
    let (w, j4) = match parse_string_at(s, j3) {
        Some(p) => p,
        None => {
            return None;
        },
    };
    let j5 = match expect_lit(s, j4, ",\"ans\":") {
        Some(j) => j,
        None => {
            return None;
        },
    };
    let (a, j6) = match parse_string_at(s, j5) {
        Some(p) => p,
        None => {
            return None;
        },
    };
    let j7 = match expect_lit(s, j6, ",\"remarks\":") {
        Some(j) => j,
        None => {
            return None;
        },
    };
    let (rm, j8) = match parse_string_at(s, j7) {
        Some(p) => p,
        None => {
            return None;
        },
    };
    let j9 = match expect_lit(s, j8, "}") {
        Some(j) => j,
        None => {
            return None;
        },
    };
    let card = Card::new(idv, w, a, rm);
    Some((card, j9))
}

fn parse_str_array_at(s: &Vec<char>, i: usize) -> (r: Option<(Vec<String>, usize)>)
    ensures
        match r {
            Some(p) => spec_parse_str_items(s@, i as int) == Some((p.0.deep_view(), p.1 as int))
                && i < p.1 <= s@.len(),
            None => spec_parse_str_items(s@, i as int) == None::<(Seq<Seq<char>>, int)>,
        },
{
    if i >= s.len() {
        return None;
    }
    if s[i] == ']' {
        let empty: Vec<String> = Vec::new();
        proof {
            assert(empty.deep_view() =~= Seq::<Seq<char>>::empty());
        }
        return Some((empty, i + 1));
    }
    let (t0, j0) = match parse_string_at(s, i) {
        Some(p) => p,
        None => {
            return None;
        },
    };
    let mut acc: Vec<String> = Vec::new();
    let ghost t0v = t0@;
    acc.push(t0);
    proof {
        assert(acc.deep_view() =~= seq![t0v]);
    }
    let mut j: usize = j0;
    while j < s.len()
        invariant
            i < j <= s@.len(),
            (match spec_parse_str_rest(s@, j as int) {
                Some(p) => spec_parse_str_items(s@, i as int) == Some(
                    (acc.deep_view() + p.0, p.1),
                ),
                None => spec_parse_str_items(s@, i as int) == None::<(Seq<Seq<char>>, int)>,
            }),
        decreases s@.len() - j,
    {
        if s[j] == ']' {
            proof {
                assert(acc.deep_view() + Seq::<Seq<char>>::empty() =~= acc.deep_view());
            }
            return Some((acc, j + 1));
        }
        if s[j] != ',' {
            return None;
        }
        let (t, j2) = match parse_string_at(s, j + 1) {
            Some(p) => p,
            None => {
                return None;
            },
        };
        let ghost accg = acc.deep_view();
        let ghost tv = t@;
        acc.push(t);
        proof {
            assert(acc.deep_view() =~= accg.push(tv));
            match spec_parse_str_rest(s@, j2 as int) {
                Some(p) => {
                    assert(accg + (seq![tv] + p.0) =~= acc.deep_view() + p.0);
                },
                None => {},
            }
        }
        j = j2;
    }
    None
}

fn parse_card_array_at(s: &Vec<char>, i: usize) -> (r: Option<(Vec<Card>, usize)>)
    ensures
        match r {
            Some(p) => spec_parse_card_items(s@, i as int) == Some((p.0.deep_view(), p.1 as int))
                && i < p.1 <= s@.len(),
            None => spec_parse_card_items(s@, i as int) == None::<(Seq<CardV>, int)>,
        },
{
    if i >= s.len() {
        return None;
    }
    if s[i] == ']' {
        let empty: Vec<Card> = Vec::new();
        proof {
            assert(empty.deep_view() =~= Seq::<CardV>::empty());
        }
        return Some((empty, i + 1));
    }
    let (c0, j0) = match parse_card_at(s, i) {
        Some(p) => p,
        None => {
            return None;
        },
    };
    let mut acc: Vec<Card> = Vec::new();
    let ghost c0v = c0@;
    acc.push(c0);
    proof {
        assert(acc.deep_view() =~= seq![c0v]);
    }
    let mut j: usize = j0;
    while j < s.len()
        invariant
            i < j <= s@.len(),
            (match spec_parse_card_rest(s@, j as int) {
                Some(p) => spec_parse_card_items(s@, i as int) == Some(
                    (acc.deep_view() + p.0, p.1),
                ),
                None => spec_parse_card_items(s@, i as int) == None::<(Seq<CardV>, int)>,
            }),
        decreases s@.len() - j,
    {
        if s[j] == ']' {
            proof {
                assert(acc.deep_view() + Seq::<CardV>::empty() =~= acc.deep_view());
            }
            return Some((acc, j + 1));
        }
        if s[j] != ',' {
            return None;
        }
        let (c, j2) = match parse_card_at(s, j + 1) {
            Some(p) => p,
            None => {
                return None;
            },
        };
        let ghost accg = acc.deep_view();
        let ghost cv = c@;
        acc.push(c);
        proof {
            assert(acc.deep_view() =~= accg.push(cv));
            match spec_parse_card_rest(s@, j2 as int) {
                Some(p) => {
                    assert(accg + (seq![cv] + p.0) =~= acc.deep_view() + p.0);
                },
                None => {},
            }
        }
        j = j2;
    }
    None
}

fn parse_study_set_body(s: &Vec<char>, i: usize) -> (r: Option<(StudySet, usize)>)
    ensures
        match r {
            Some(p) => spec_parse_study_set_at(s@, i as int) == Some((p.0@, p.1 as int)) && i < p.1
                <= s@.len(),
            None => spec_parse_study_set_at(s@, i as int) == None::<(StudySetV, int)>,
        },
{
    proof {
        reveal_strlit("}");
        assert(("}")@ =~= seq!['}']);
    }
    let j1 = match expect_lit(s, i, "{\"name\":") {
        Some(j) => j,
        None => {
            return None;
        },
    };
    let (nm, j2) = match parse_string_at(s, j1) {
        Some(p) => p,
        None => {
            return None;
        },
    };
    let j3 = match expect_lit(s, j2, ",\"tags\":[") {
        Some(j) => j,
        None => {
            return None;
        },
    };
    let (tags, j4) = match parse_str_array_at(s, j3) {
        Some(p) => p,
        None => {
            return None;
        },
    };
    let j5 = match expect_lit(s, j4, ",\"cards\":[") {
        Some(j) => j,
        None => {
            return None;
        },
    };
    let (cards, j6) = match parse_card_array_at(s, j5) {
        Some(p) => p,
        None => {
            return None;
        },
    };
    let j7 = match expect_lit(s, j6, "}") {
        Some(j) => j,
        None => {
            return None;
        },
    };
    let ghost nmv = nm@;
    let mut ss = StudySet::new(nm);
    let mut k: usize = 0;
    while k < tags.len()
        invariant
            k <= tags@.len(),
            ss@.name == nmv,
            ss@.tags == tags.deep_view().subrange(0, k as int),
            ss@.cards == Seq::<CardV>::empty(),
        decreases tags.len() - k,
    {
        ss.add_tag(tags[k].clone());
        proof {
            assert(ss@.tags =~= tags.deep_view().subrange(0, k + 1 as int));
        }
        k = k + 1;
    }
    proof {
        assert(tags.deep_view().subrange(0, tags.deep_view().len() as int) =~= tags.deep_view());
    }
    let mut k2: usize = 0;
    while k2 < cards.len()
        invariant
            k2 <= cards@.len(),
            ss@.name == nmv,
            ss@.tags == tags.deep_view(),
            ss@.cards == cards.deep_view().subrange(0, k2 as int),
        decreases cards.len() - k2,
    {
        ss.add_card(cards[k2].clone());
        proof {
            assert(ss@.cards =~= cards.deep_view().subrange(0, k2 + 1 as int));
        }
        k2 = k2 + 1;
    }
    proof {
        assert(cards.deep_view().subrange(0, cards.deep_view().len() as int)
            =~= cards.deep_view());
        assert(ss@ == (StudySetV {
            name: nmv,
            tags: tags.deep_view(),
            cards: cards.deep_view(),
        }));
    }
    Some((ss, j7))
}

/// Read a whole set file. Returns the study set exactly when the text is a
/// well-formed set file, and nothing otherwise.
pub fn parse_study_set(text: &Vec<char>) -> (r: Option<StudySet>)
    ensures
        match r {
            Some(ss) => spec_parse_study_set(text@) == Some(ss@),
            None => spec_parse_study_set(text@) == None::<StudySetV>,
        },
{
    match parse_study_set_body(text, 0) {
        Some(p) => {
            let (ss, j) = p;
            if j == text.len() {
                Some(ss)
            } else {
                None
            }
        },
        None => None,
    }
}

fn parse_item_at(s: &Vec<char>, i: usize) -> (r: Option<(ListItem, usize)>)
    ensures
        match r {
            Some(p) => spec_parse_item(s@, i as int) == Some((p.0@, p.1 as int)) && i < p.1
                <= s@.len(),
            None => spec_parse_item(s@, i as int) == None::<(ListItemV, int)>,
        },
{
    proof {
        reveal_strlit("}");
        assert(("}")@ =~= seq!['}']);
    }
    let j1 = match expect_lit(s, i, "{\"item_id\":") {
        Some(j) => j,
        None => {
            return None;
        },
    };
    let (idv, j2) = match parse_usize_at(s, j1) {
        Some(p) => p,
        None => {
            return None;
        },
    };
    let j3 = match expect_lit(s, j2, ",\"item_name\":") {
        Some(j) => j,
        None => {
            return None;
        },
    };
    let (nm, j4) = match parse_string_at(s, j3) {
        Some(p) => p,
        None => {
            return None;
        },
    };
    let j5 = match expect_lit(s, j4, ",\"item_tags\":[") {
        Some(j) => j,
        None => {
            return None;
        },
    };
    let (tags, j6) = match parse_str_array_at(s, j5) {
        Some(p) => p,
        None => {
            return None;
        },
    };
    let j7 = match expect_lit(s, j6, ",\"num_of_cards\":") {
        Some(j) => j,
        None => {
            return None;
        },
    };
    let (num, j8) = match parse_usize_at(s, j7) {
        Some(p) => p,
        None => {
            return None;
        },
    };
    let j9 = match expect_lit(s, j8, "}") {
        Some(j) => j,
        None => {
            return None;
        },
    };
    let item = ListItem::new(idv, nm, tags, num);
    Some((item, j9))
}

fn parse_item_array_at(s: &Vec<char>, i: usize) -> (r: Option<(Vec<ListItem>, usize)>)
    ensures
        match r {
            Some(p) => spec_parse_item_items(s@, i as int) == Some((p.0.deep_view(), p.1 as int))
                && i < p.1 <= s@.len(),
            None => spec_parse_item_items(s@, i as int) == None::<(Seq<ListItemV>, int)>,
        },
{
    if i >= s.len() {
        return None;
    }
    if s[i] == ']' {
        let empty: Vec<ListItem> = Vec::new();
        proof {
            assert(empty.deep_view() =~= Seq::<ListItemV>::empty());
        }
        return Some((empty, i + 1));
    }
    let (it0, j0) = match parse_item_at(s, i) {
        Some(p) => p,
        None => {
            return None;
        },
    };
    let mut acc: Vec<ListItem> = Vec::new();
    let ghost it0v = it0@;
    acc.push(it0);
    proof {
        assert(acc.deep_view() =~= seq![it0v]);
    }
    let mut j: usize = j0;
    while j < s.len()
        invariant
            i < j <= s@.len(),
            (match spec_parse_item_rest(s@, j as int) {
                Some(p) => spec_parse_item_items(s@, i as int) == Some(
                    (acc.deep_view() + p.0, p.1),
                ),
                None => spec_parse_item_items(s@, i as int) == None::<(Seq<ListItemV>, int)>,
            }),
        decreases s@.len() - j,
    {
        if s[j] == ']' {
            proof {
                assert(acc.deep_view() + Seq::<ListItemV>::empty() =~= acc.deep_view());
            }
            return Some((acc, j + 1));
        }
        if s[j] != ',' {
            return None;
        }
        let (it, j2) = match parse_item_at(s, j + 1) {
            Some(p) => p,
            None => {
                return None;
            },
        };
        let ghost accg = acc.deep_view();
        let ghost itv = it@;
        acc.push(it);
        proof {
            assert(acc.deep_view() =~= accg.push(itv));
            match spec_parse_item_rest(s@, j2 as int) {
                Some(p) => {
                    assert(accg + (seq![itv] + p.0) =~= acc.deep_view() + p.0);
                },
                None => {},
            }
        }
        j = j2;
    }
    None
}

/// Read a whole inventory file. Returns the catalogue exactly when the text
/// is a well-formed inventory file, and nothing otherwise.
pub fn parse_catalogue(text: &Vec<char>) -> (r: Option<Catalogue>)
    ensures
        match r {
            Some(c) => spec_parse_catalogue(text@) == Some(c@),
            None => spec_parse_catalogue(text@) == None::<Seq<ListItemV>>,
        },
{
    proof {
        reveal_strlit("}");
        assert(("}")@ =~= seq!['}']);
    }
    let j1 = match expect_lit(text, 0, "{\"inventory\":[") {
        Some(j) => j,
        None => {
            return None;
        },
    };
    let (items, j2) = match parse_item_array_at(text, j1) {
        Some(p) => p,
        None => {
            return None;
        },
    };
    let j3 = match expect_lit(text, j2, "}") {
        Some(j) => j,
        None => {
            return None;
        },
    };
    if j3 == text.len() {
        let c = Catalogue::from_items(items);
        Some(c)
    } else {
        None
    }
}

} // verus!
