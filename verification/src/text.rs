//! Character-level helpers on strings: reading the characters of a `str`,
//! decimal numbers as `u64::from_str` reads them, and the byte-wise order
//! that `str`'s `Ord` uses.

use vstd::prelude::*;

verus! {

/// Collects the characters of `s` in order.
pub fn chars_of(s: &str) -> (r: Vec<char>)
    ensures
        r@ == s@,
{
    let mut r: Vec<char> = Vec::new();
    for c in it: s.chars()
        invariant
            r@ == it.seq().take(it.index() as int),
            it.seq() == s@,
    {
        r.push(c);
    }
    r
}

} // verus!

verus! {

/// A decimal digit `'0'..='9'`.
pub open spec fn is_digit(c: char) -> bool {
    '0' <= c && c <= '9'
}

/// The value of a decimal digit character.
pub open spec fn digit_value(c: char) -> nat {
    (c as int - '0' as int) as nat
}

/// The value of a string of decimal digits, most significant first.
pub open spec fn digits_value(s: Seq<char>) -> nat
    decreases s.len(),
{
    if s.len() == 0 {
        0
    } else {
        digits_value(s.drop_last()) * 10 + digit_value(s.last())
    }
}

pub open spec fn all_digits(s: Seq<char>) -> bool {
    forall|i: int| 0 <= i < s.len() ==> is_digit(#[trigger] s[i])
}

/// The part of `s` that `u64::from_str` reads as digits: one leading `'+'`
/// is accepted and dropped.
pub open spec fn unsigned_digits(s: Seq<char>) -> Seq<char> {
    if s.len() > 0 && s[0] == '+' {
        s.drop_first()
    } else {
        s
    }
}

/// What `s.parse::<u64>().ok()` gives: `Some` exactly when, after an
/// optional `'+'`, `s` is a non-empty run of decimal digits whose value
/// fits in a `u64`.
pub open spec fn parse_u64_spec(s: Seq<char>) -> Option<u64> {
    let d = unsigned_digits(s);
    if d.len() > 0 && all_digits(d) && digits_value(d) <= u64::MAX {
        Some(digits_value(d) as u64)
    } else {
        None
    }
}

proof fn lemma_digits_value_step(s: Seq<char>, i: int)
    requires
        0 <= i < s.len(),
    ensures
        digits_value(s.take(i + 1)) == digits_value(s.take(i)) * 10 + digit_value(s[i]),
{
    assert(s.take(i + 1).drop_last() =~= s.take(i));
}

proof fn lemma_digits_value_grows(s: Seq<char>, i: int, j: int)
    requires
        0 <= i <= j <= s.len(),
    ensures
        digits_value(s.take(i)) <= digits_value(s.take(j)),
    decreases j - i,
{
    if i < j {
        lemma_digits_value_grows(s, i, j - 1);
        lemma_digits_value_step(s, j - 1);
    }
}

/// Reads `s` as `u64::from_str` does, giving `None` where it gives an error.
pub fn parse_u64(s: &str) -> (r: Option<u64>)
    ensures
        r == parse_u64_spec(s@),
{
    let cs = chars_of(s);
    let n = cs.len();
    let mut i: usize = 0;
    if n > 0 && cs[0] == '+' {
        i = 1;
    }
    let start = i;
    let ghost d = unsigned_digits(s@);
    assert(d =~= cs@.skip(start as int));
    if start == n {
        return None;
    }
    let mut acc: u64 = 0;
    while i < n
        invariant
            start <= i <= n,
            n == cs@.len(),
            cs@ == s@,
            d == cs@.skip(start as int),
            d == unsigned_digits(s@),
            all_digits(d.take(i - start)),
            acc as nat == digits_value(d.take(i - start)),
        decreases n - i,
    {
        let c = cs[i];
        if !('0' <= c && c <= '9') {
            assert(!is_digit(d[i - start]));
            return None;
        }
        let dv = (c as u32 - '0' as u32) as u64;
        proof {
            lemma_digits_value_step(d, i - start);
            assert(d.take(i + 1 - start).drop_last() =~= d.take(i - start));
        }
        match acc.checked_mul(10) {
            Some(m) => {
                match m.checked_add(dv) {
                    Some(v) => {
                        acc = v;
                    },
                    None => {
                        proof {
                            lemma_digits_value_grows(d, i + 1 - start, d.len() as int);
                            assert(d.take(d.len() as int) =~= d);
                        }
                        return None;
                    },
                }
            },
            None => {
                proof {
                    lemma_digits_value_grows(d, i + 1 - start, d.len() as int);
                    assert(d.take(d.len() as int) =~= d);
                }
                return None;
            },
        }
        i = i + 1;
    }
    assert(d.take(n - start) =~= d);
    Some(acc)
}

} // verus!

verus! {

/// Appends one character to a `String` (`String::push`).
#[verifier::external_body]
pub(crate) fn push_char(s: &mut String, c: char)
    ensures
        final(s)@ == old(s)@.push(c),
{
    s.push(c);
}

/// Builds a `String` holding exactly the characters of `cs`.
pub fn string_from_chars(cs: &Vec<char>) -> (r: String)
    ensures
        r@ == cs@,
{
    let mut r = String::new();
    let mut i: usize = 0;
    while i < cs.len()
        invariant
            i <= cs.len(),
            r@ == cs@.take(i as int),
        decreases cs.len() - i,
    {
        push_char(&mut r, cs[i]);
        assert(cs@.take(i + 1) =~= cs@.take(i as int).push(cs@[i as int]));
        i = i + 1;
    }
    assert(cs@.take(cs.len() as int) =~= cs@);
    r
}

/// Whether two strings hold the same characters.
pub fn same_text(a: &str, b: &str) -> (r: bool)
    ensures
        r == (a@ == b@),
{
    let x = chars_of(a);
    let y = chars_of(b);
    if x.len() != y.len() {
        return false;
    }
    let mut i: usize = 0;
    while i < x.len()
        invariant
            x.len() == y.len(),
            i <= x.len(),
            x@ == a@,
            y@ == b@,
            forall|j: int| 0 <= j < i ==> x@[j] == y@[j],
        decreases x.len() - i,
    {
        if x[i] != y[i] {
            return false;
        }
        i = i + 1;
    }
    assert(x@ =~= y@);
    true
}

/// Whether `s` begins with `prefix`.
pub fn starts_with_text(s: &str, prefix: &str) -> (r: bool)
    ensures
        r == prefix@.is_prefix_of(s@),
{
    let x = chars_of(s);
    let p = chars_of(prefix);
    if p.len() > x.len() {
        return false;
    }
    let mut i: usize = 0;
    while i < p.len()
        invariant
            p.len() <= x.len(),
            i <= p.len(),
            x@ == s@,
            p@ == prefix@,
            forall|j: int| 0 <= j < i ==> p@[j] == x@[j],
        decreases p.len() - i,
    {
        if p[i] != x[i] {
            assert(s@.subrange(0, p@.len() as int)[i as int] != prefix@[i as int]);
            return false;
        }
        i = i + 1;
    }
    assert(s@.subrange(0, p@.len() as int) =~= prefix@);
    true
}

/// Lexicographic order on characters from position `i` on: the order that
/// `Ord for str` gives (comparing UTF-8 bytes orders characters as their
/// code points do).
pub open spec fn text_le_from(a: Seq<char>, b: Seq<char>, i: int) -> bool
    decreases a.len() - i,
{
    if i >= a.len() || i < 0 {
        true
    } else if i >= b.len() {
        false
    } else if a[i] != b[i] {
        (a[i] as int) < (b[i] as int)
    } else {
        text_le_from(a, b, i + 1)
    }
}

/// `a <= b` as `str`'s `Ord` orders them.
pub open spec fn text_le(a: Seq<char>, b: Seq<char>) -> bool {
    text_le_from(a, b, 0)
}

pub proof fn lemma_text_le_total_from(a: Seq<char>, b: Seq<char>, i: int)
    requires
        0 <= i,
    ensures
        text_le_from(a, b, i) || text_le_from(b, a, i),
    decreases a.len() - i,
{
    if i < a.len() && i < b.len() {
        if a[i] == b[i] {
            lemma_text_le_total_from(a, b, i + 1);
        } else {
            assert((a[i] as int) != (b[i] as int));
        }
    }
}

pub proof fn lemma_text_le_transitive_from(a: Seq<char>, b: Seq<char>, c: Seq<char>, i: int)
    requires
        0 <= i,
        text_le_from(a, b, i),
        text_le_from(b, c, i),
    ensures
        text_le_from(a, c, i),
    decreases a.len() - i,
{
    if i < a.len() && i < b.len() && i < c.len() && a[i] == b[i] && b[i] == c[i] {
        lemma_text_le_transitive_from(a, b, c, i + 1);
    }
}

pub proof fn lemma_text_le_antisymmetric_from(a: Seq<char>, b: Seq<char>, i: int)
    requires
        0 <= i <= a.len(),
        i <= b.len(),
        text_le_from(a, b, i),
        text_le_from(b, a, i),
    ensures
        a.skip(i) =~= b.skip(i),
    decreases a.len() - i,
{
    if i < a.len() {
        lemma_text_le_antisymmetric_from(a, b, i + 1);
        assert forall|k: int| 0 <= k < a.len() - i implies a.skip(i)[k] == b.skip(i)[k] by {
            if k > 0 {
                assert(a.skip(i)[k] == a.skip(i + 1)[k - 1]);
                assert(b.skip(i)[k] == b.skip(i + 1)[k - 1]);
            }
        }
    }
}

pub proof fn lemma_text_le_total(a: Seq<char>, b: Seq<char>)
    ensures
        text_le(a, b) || text_le(b, a),
{
    lemma_text_le_total_from(a, b, 0);
}

pub proof fn lemma_text_le_transitive(a: Seq<char>, b: Seq<char>, c: Seq<char>)
    requires
        text_le(a, b),
        text_le(b, c),
    ensures
        text_le(a, c),
{
    lemma_text_le_transitive_from(a, b, c, 0);
}

pub proof fn lemma_text_le_antisymmetric(a: Seq<char>, b: Seq<char>)
    requires
        text_le(a, b),
        text_le(b, a),
    ensures
        a == b,
{
    lemma_text_le_antisymmetric_from(a, b, 0);
    assert(a.skip(0) =~= a);
    assert(b.skip(0) =~= b);
}

proof fn lemma_text_le_from_skips_common(a: Seq<char>, b: Seq<char>, i: int, j: int)
    requires
        0 <= j <= i,
        i <= a.len(),
        i <= b.len(),
        forall|k: int| 0 <= k < i ==> a[k] == b[k],
    ensures
        text_le_from(a, b, j) == text_le_from(a, b, i),
    decreases i - j,
{
    if j < i {
        lemma_text_le_from_skips_common(a, b, i, j + 1);
    }
}

/// `str` order compares from the first character on: two texts that agree
/// before position `i` and differ at `i` are ordered as their characters
/// at `i` are.
pub proof fn lemma_text_le_first_difference(a: Seq<char>, b: Seq<char>, i: int)
    requires
        0 <= i < a.len(),
        i < b.len(),
        forall|k: int| 0 <= k < i ==> a[k] == b[k],
        a[i] != b[i],
    ensures
        text_le(a, b) <==> (a[i] as int) < (b[i] as int),
        text_le(b, a) <==> (b[i] as int) < (a[i] as int),
{
    lemma_text_le_from_skips_common(a, b, i, 0);
    lemma_text_le_from_skips_common(b, a, i, 0);
}

/// In `str` order a text sorts at or below every text that it begins, and
/// strictly below every longer one.
pub proof fn lemma_text_le_prefix(a: Seq<char>, b: Seq<char>)
    requires
        a.len() <= b.len(),
        forall|k: int| 0 <= k < a.len() ==> a[k] == b[k],
    ensures
        text_le(a, b),
        a.len() < b.len() ==> !text_le(b, a),
{
    lemma_text_le_from_skips_common(a, b, a.len() as int, 0);
    lemma_text_le_from_skips_common(b, a, a.len() as int, 0);
}

/// `a <= b` in `str` order.
pub fn text_le_exec(a: &Vec<char>, b: &Vec<char>) -> (r: bool)
    ensures
        r == text_le(a@, b@),
{
    let mut i: usize = 0;
    while i < a.len()
        invariant
            i <= a.len(),
            text_le_from(a@, b@, 0) == text_le_from(a@, b@, i as int),
        decreases a.len() - i,
    {
        if i >= b.len() {
            return false;
        }
        if a[i] != b[i] {
            return a[i] < b[i];
        }
        i = i + 1;
    }
    true
}

} // verus!

verus! {

/// The lower-case digit character for `d` (below 16).
pub open spec fn digit_char(d: nat) -> char {
    if d == 0 { '0' } else if d == 1 { '1' } else if d == 2 { '2' } else if d == 3 { '3' }
    else if d == 4 { '4' } else if d == 5 { '5' } else if d == 6 { '6' } else if d == 7 { '7' }
    else if d == 8 { '8' } else if d == 9 { '9' } else if d == 10 { 'a' } else if d == 11 { 'b' }
    else if d == 12 { 'c' } else if d == 13 { 'd' } else if d == 14 { 'e' } else { 'f' }
}

/// `n` written in `base` (10 or 16) with lower-case digits and no leading
/// zeros, as `{}` and `{:x}` write a `u64`.
pub open spec fn base_text(n: nat, base: nat) -> Seq<char>
    recommends
        base >= 2,
    decreases n,
    when base >= 2
{
    if n < base {
        seq![digit_char(n)]
    } else {
        proof {
            assert(n / base < n) by (nonlinear_arith)
                requires
                    n >= base,
                    base >= 2,
            ;
        }
        base_text(n / base, base).push(digit_char(n % base))
    }
}

pub open spec fn decimal_text(n: nat) -> Seq<char> {
    base_text(n, 10)
}

pub open spec fn hex_text(n: nat) -> Seq<char> {
    base_text(n, 16)
}

fn digit_char_exec(d: u64) -> (c: char)
    requires
        d < 16,
    ensures
        c == digit_char(d as nat),
{
    if d == 0 { '0' } else if d == 1 { '1' } else if d == 2 { '2' } else if d == 3 { '3' }
    else if d == 4 { '4' } else if d == 5 { '5' } else if d == 6 { '6' } else if d == 7 { '7' }
    else if d == 8 { '8' } else if d == 9 { '9' } else if d == 10 { 'a' } else if d == 11 { 'b' }
    else if d == 12 { 'c' } else if d == 13 { 'd' } else if d == 14 { 'e' } else { 'f' }
}

fn base_chars(n: u64, base: u64) -> (r: Vec<char>)
    requires
        base == 10 || base == 16,
    ensures
        r@ == base_text(n as nat, base as nat),
    decreases n,
{
    if n < base {
        let mut v: Vec<char> = Vec::new();
        v.push(digit_char_exec(n));
        v
    } else {
        let mut v = base_chars(n / base, base);
        v.push(digit_char_exec(n % base));
        v
    }
}

/// `n` in decimal, as `format!("{}", n)` writes it.
pub fn decimal_string(n: u64) -> (r: String)
    ensures
        r@ == decimal_text(n as nat),
{
    string_from_chars(&base_chars(n, 10))
}

/// `n` in lower-case hexadecimal, as `format!("{:x}", n)` writes it.
pub fn hex_string(n: u64) -> (r: String)
    ensures
        r@ == hex_text(n as nat),
{
    string_from_chars(&base_chars(n, 16))
}

proof fn lemma_digit_char_decimal(d: nat)
    requires
        d < 10,
    ensures
        is_digit(digit_char(d)),
        digit_value(digit_char(d)) == d,
{
}

/// Writing a number in decimal and reading it back gives the number.
pub proof fn lemma_decimal_text_parses(n: nat)
    ensures
        decimal_text(n).len() > 0,
        all_digits(decimal_text(n)),
        digits_value(decimal_text(n)) == n,
        decimal_text(n)[0] != '+',
    decreases n,
{
    if n < 10 {
        lemma_digit_char_decimal(n);
        assert(decimal_text(n) =~= seq![digit_char(n)]);
        assert(seq![digit_char(n)].drop_last() =~= Seq::<char>::empty());
        assert(digits_value(decimal_text(n)) == digits_value(Seq::<char>::empty()) * 10 + digit_value(digit_char(n)));
    } else {
        lemma_decimal_text_parses(n / 10);
        lemma_digit_char_decimal(n % 10);
        let t = decimal_text(n);
        assert(t == decimal_text(n / 10).push(digit_char(n % 10)));
        assert(t.drop_last() =~= decimal_text(n / 10));
        assert(t.last() == digit_char(n % 10));
        assert(digits_value(t) == (n / 10) * 10 + n % 10);
        assert forall|i: int| 0 <= i < t.len() implies is_digit(#[trigger] t[i]) by {
            if i < t.len() - 1 {
                assert(t[i] == decimal_text(n / 10)[i]);
            }
        }
    }
}

/// Reading back the decimal text of a `u64` gives it again.
pub proof fn lemma_parse_decimal_roundtrip(n: u64)
    ensures
        parse_u64_spec(decimal_text(n as nat)) == Some(n),
{
    lemma_decimal_text_parses(n as nat);
}

} // verus!

verus! {

/// `format!("{a}{sep}{b}")`.
pub fn join_with(a: &str, sep: char, b: &str) -> (r: String)
    ensures
        r@ == a@.push(sep) + b@,
{
    let mut cs = chars_of(a);
    cs.push(sep);
    let tail = chars_of(b);
    let mut i: usize = 0;
    let ghost head = cs@;
    while i < tail.len()
        invariant
            i <= tail@.len(),
            cs@ == head + tail@.take(i as int),
        decreases tail.len() - i,
    {
        cs.push(tail[i]);
        proof {
            assert(tail@.take(i + 1) =~= tail@.take(i as int).push(tail@[i as int]));
        }
        i = i + 1;
    }
    assert(tail@.take(tail@.len() as int) =~= tail@);
    string_from_chars(&cs)
}

} // verus!

verus! {

/// `String::from_utf8`: the text that `bytes` encode where they are valid
/// UTF-8, else the error's text.
#[verifier::external_body]
pub(crate) fn string_from_utf8(bytes: &[u8]) -> (r: Result<String, String>)
    ensures
        match r {
            Ok(s) => vstd::utf8::valid_utf8(bytes@) && s@ == vstd::utf8::decode_utf8(bytes@),
            Err(_) => !vstd::utf8::valid_utf8(bytes@),
        },
{
    String::from_utf8(bytes.to_vec()).map_err(|e| e.to_string())
}

} // verus!

verus! {

/// The items of a byte list as `{:?}` writes them: decimal numbers
/// separated by `", "`.
pub open spec fn byte_list_text(s: Seq<u8>) -> Seq<char>
    decreases s.len(),
{
    if s.len() == 0 {
        Seq::empty()
    } else if s.len() == 1 {
        decimal_text(s[0] as nat)
    } else {
        byte_list_text(s.drop_last()) + seq![',', ' '] + decimal_text(s.last() as nat)
    }
}

/// A byte slice as `{:?}` writes it: `[1, 2, 3]`.
pub open spec fn bytes_debug_text(s: Seq<u8>) -> Seq<char> {
    seq!['['] + byte_list_text(s) + seq![']']
}

fn push_str_chars(out: &mut Vec<char>, s: &str)
    ensures
        final(out)@ == old(out)@ + s@,
{
    let cs = chars_of(s);
    let mut i: usize = 0;
    while i < cs.len()
        invariant
            i <= cs@.len(),
            cs@ == s@,
            out@ == old(out)@ + cs@.take(i as int),
        decreases cs.len() - i,
    {
        out.push(cs[i]);
        proof {
            assert(cs@.take(i + 1) =~= cs@.take(i as int).push(cs@[i as int]));
        }
        i = i + 1;
    }
    assert(cs@.take(cs@.len() as int) =~= cs@);
}

/// `format!("{:?}", bytes)`.
pub fn bytes_debug(bytes: &[u8]) -> (r: String)
    ensures
        r@ == bytes_debug_text(bytes@),
{
    let mut out: Vec<char> = Vec::new();
    out.push('[');
    let mut i: usize = 0;
    while i < bytes.len()
        invariant
            i <= bytes@.len(),
            out@ == seq!['['] + byte_list_text(bytes@.take(i as int)),
        decreases bytes.len() - i,
    {
        let ghost before = out@;
        if i > 0 {
            out.push(',');
            out.push(' ');
        }
        let d = decimal_string(bytes[i] as u64);
        push_str_chars(&mut out, d.as_str());
        proof {
            let t = bytes@.take(i + 1);
            assert(t.drop_last() =~= bytes@.take(i as int));
            assert(t.last() == bytes@[i as int]);
            if i == 0 {
                assert(bytes@.take(0) =~= Seq::<u8>::empty());
                assert(out@ =~= seq!['['] + byte_list_text(t));
            } else {
                assert(out@ =~= seq!['['] + byte_list_text(t));
            }
        }
        i = i + 1;
    }
    out.push(']');
    proof {
        assert(bytes@.take(bytes@.len() as int) =~= bytes@);
        assert(out@ =~= bytes_debug_text(bytes@));
    }
    string_from_chars(&out)
}

} // verus!
