//! Verified string helpers: equality, ASCII lowercasing, decimal and
//! hexadecimal rendering, and number parsing.

use vstd::prelude::*;
use vstd::string::{StrSliceExecFns, StringExecFns};

verus! {

/// Relies on `String::push`: appends one character to the string.
#[verifier::external_body]
pub fn push_char(s: &mut String, c: char)
    ensures
        final(s)@ == old(s)@.push(c),
{
    s.push(c)
}

/// Character-by-character string equality.
pub fn str_eq(a: &str, b: &str) -> (r: bool)
    ensures
        r == (a@ == b@),
{
    let la = a.unicode_len();
    let lb = b.unicode_len();
    if la != lb {
        return false;
    }
    let mut i: usize = 0;
    while i < la
        invariant
            i <= la,
            la == a@.len(),
            la == b@.len(),
            forall|j: int| 0 <= j < i ==> a@[j] == b@[j],
        decreases la - i,
    {
        if a.get_char(i) != b.get_char(i) {
            return false;
        }
        i = i + 1;
    }
    proof {
        assert(a@ =~= b@);
    }
    true
}

/// ASCII lowercasing of one character: 'A'..'Z' map to 'a'..'z', everything
/// else is unchanged.
pub open spec fn ascii_lower_char(c: char) -> char {
    if 65 <= c as u32 <= 90 {
        (c as u32 + 32) as u8 as char
    } else {
        c
    }
}

/// ASCII lowercasing of a string.
pub open spec fn ascii_lower(s: Seq<char>) -> Seq<char> {
    s.map_values(|c: char| ascii_lower_char(c))
}

/// Lowercase one character.
fn lower_char(c: char) -> (r: char)
    ensures
        r == ascii_lower_char(c),
{
    let u = c as u32;
    if 65 <= u && u <= 90 {
        (u + 32) as u8 as char
    } else {
        c
    }
}

/// Lowercase a string, ASCII-wise.
pub fn lower_str(s: &str) -> (r: String)
    ensures
        r@ == ascii_lower(s@),
{
    let n = s.unicode_len();
    let mut out = String::new();
    let mut i: usize = 0;
    while i < n
        invariant
            i <= n,
            n == s@.len(),
            out@.len() == i,
            forall|j: int| 0 <= j < i ==> out@[j] == ascii_lower_char(s@[j]),
        decreases n - i,
    {
        let c = s.get_char(i);
        push_char(&mut out, lower_char(c));
        i = i + 1;
    }
    proof {
        assert(out@ =~= ascii_lower(s@));
    }
    out
}

/// The character for one decimal digit.
pub open spec fn digit_char(d: int) -> char {
    if d == 0 { '0' }
    else if d == 1 { '1' }
    else if d == 2 { '2' }
    else if d == 3 { '3' }
    else if d == 4 { '4' }
    else if d == 5 { '5' }
    else if d == 6 { '6' }
    else if d == 7 { '7' }
    else if d == 8 { '8' }
    else { '9' }
}

/// The decimal rendering of a natural number, most significant digit first.
pub open spec fn dec_str(n: int) -> Seq<char>
    decreases n,
{
    if n < 10 {
        seq![digit_char(n)]
    } else {
        dec_str(n / 10).push(digit_char(n % 10))
    }
}

fn digit_char_exec(d: u64) -> (c: char)
    requires
        d < 10,
    ensures
        c == digit_char(d as int),
{
    if d == 0 { '0' }
    else if d == 1 { '1' }
    else if d == 2 { '2' }
    else if d == 3 { '3' }
    else if d == 4 { '4' }
    else if d == 5 { '5' }
    else if d == 6 { '6' }
    else if d == 7 { '7' }
    else if d == 8 { '8' }
    else { '9' }
}

/// Render a number in decimal.
pub fn dec_u64(n: u64) -> (r: String)
    ensures
        r@ == dec_str(n as int),
    decreases n,
{
    if n < 10 {
        let mut s = String::new();
        push_char(&mut s, digit_char_exec(n));
        proof {
            assert(s@ =~= dec_str(n as int));
        }
        s
    } else {
        let mut s = dec_u64(n / 10);
        push_char(&mut s, digit_char_exec(n % 10));
        s
    }
}

/// The character for one hexadecimal digit.
pub open spec fn hex_char(d: int) -> char {
    if d < 10 {
        digit_char(d)
    } else if d == 10 { 'a' }
    else if d == 11 { 'b' }
    else if d == 12 { 'c' }
    else if d == 13 { 'd' }
    else if d == 14 { 'e' }
    else { 'f' }
}

fn hex_char_exec(d: u64) -> (c: char)
    requires
        d < 16,
    ensures
        c == hex_char(d as int),
{
    if d < 10 {
        digit_char_exec(d)
    } else if d == 10 { 'a' }
    else if d == 11 { 'b' }
    else if d == 12 { 'c' }
    else if d == 13 { 'd' }
    else if d == 14 { 'e' }
    else { 'f' }
}

/// Four hexadecimal characters drawn from the low 16 bits of a value.
pub open spec fn hex4(v: u128) -> Seq<char> {
    let w = (v % 0x10000) as int;
    seq![
        hex_char(w / 0x1000),
        hex_char((w / 0x100) % 16),
        hex_char((w / 16) % 16),
        hex_char(w % 16),
    ]
}

/// Render the low 16 bits of a value as four hexadecimal characters.
pub fn hex4_str(v: u128) -> (r: String)
    ensures
        r@ == hex4(v),
{
    let w = (v % 0x10000) as u64;
    let mut s = String::new();
    push_char(&mut s, hex_char_exec(w / 0x1000));
    push_char(&mut s, hex_char_exec((w / 0x100) % 16));
    push_char(&mut s, hex_char_exec((w / 16) % 16));
    push_char(&mut s, hex_char_exec(w % 16));
    proof {
        assert(s@ =~= hex4(v));
    }
    s
}

/// Whether a character is a decimal digit.
pub open spec fn is_digit(c: char) -> bool {
    48 <= c as u32 <= 57
}

/// The value of one digit character.
pub open spec fn digit_val(c: char) -> int {
    c as u32 - 48
}

/// The value of a digit string, most significant digit first.
pub open spec fn digits_val(s: Seq<char>) -> int
    decreases s.len(),
{
    if s.len() == 0 {
        0
    } else {
        digits_val(s.drop_last()) * 10 + digit_val(s.last())
    }
}

/// Whether every character of a string is a decimal digit.
pub open spec fn all_digits(s: Seq<char>) -> bool {
    forall|i: int| 0 <= i < s.len() ==> is_digit(#[trigger] s[i])
}

/// The digits of a number string, after an optional leading '+'.
pub open spec fn number_body(s: Seq<char>) -> Seq<char> {
    if s.len() > 0 && s[0] == '+' { s.drop_first() } else { s }
}

/// What `u8` parsing accepts: an optional leading '+', then at least one
/// digit, with a value of at most 255.
pub open spec fn parse_u8_spec(s: Seq<char>) -> Option<u8> {
    if number_body(s).len() == 0 || !all_digits(number_body(s)) {
        None
    } else if digits_val(number_body(s)) > 255 {
        None
    } else {
        Some(digits_val(number_body(s)) as u8)
    }
}

pub proof fn lemma_digits_val_nonneg(s: Seq<char>)
    requires
        forall|i: int| 0 <= i < s.len() ==> is_digit(#[trigger] s[i]),
    ensures
        digits_val(s) >= 0,
    decreases s.len(),
{
    if s.len() > 0 {
        lemma_digits_val_nonneg(s.drop_last());
    }
}

pub proof fn lemma_digits_val_grows(s: Seq<char>, i: int, b: int)
    requires
        0 <= i <= s.len(),
        0 <= b,
        forall|k: int| 0 <= k < s.len() ==> is_digit(#[trigger] s[k]),
        digits_val(s.take(i)) > b,
    ensures
        digits_val(s) > b,
    decreases s.len() - i,
{
    if i < s.len() {
        assert(s.take(i + 1).drop_last() =~= s.take(i));
        lemma_digits_val_nonneg(s.take(i));
        assert(digits_val(s.take(i + 1)) == digits_val(s.take(i)) * 10 + digit_val(s.take(i + 1).last()));
        lemma_digits_val_grows(s, i + 1, b);
    } else {
        assert(s.take(i) =~= s);
    }
}

/// Parse a `u8` from a digit string, as `str::parse::<u8>` accepts it.
pub fn parse_u8(s: &str) -> (r: Option<u8>)
    ensures
        r == parse_u8_spec(s@),
{
    let n = s.unicode_len();
    let ghost t: Seq<char> = number_body(s@);
    let mut i: usize = 0;
    if n > 0 && s.get_char(0) == '+' {
        i = 1;
    }
    proof {
        assert(t =~= s@.skip(i as int));
    }
    if i == n {
        return None;
    }
    let start = i;
    let mut acc: u32 = 0;
    while i < n
        invariant
            start <= i <= n,
            n == s@.len(),
            start == if s@.len() > 0 && s@[0] == '+' { 1int } else { 0int },
            start < n,
            t == s@.skip(start as int),
            t == number_body(s@),
            forall|k: int| start <= k < i ==> is_digit(#[trigger] s@[k]),
            acc <= 255,
            acc == digits_val(t.take(i - start)),
        decreases n - i,
    {
        let c = s.get_char(i);
        let u = c as u32;
        if !(48 <= u && u <= 57) {
            proof {
                assert(t[i - start] == s@[i as int]);
                assert(!all_digits(t)) by {
                    assert(!is_digit(t[i - start]));
                }
            }
            return None;
        }
        proof {
            assert(t[i - start] == s@[i as int]);
            assert(t.take(i - start + 1).drop_last() =~= t.take(i - start));
            assert(t.take(i - start + 1).last() == t[i - start]);
        }
        let d = u - 48;
        if acc > 25 || (acc == 25 && d > 5) {
            proof {
                assert(digits_val(t.take(i - start + 1)) == acc * 10 + d);
                if all_digits(t) {
                    lemma_digits_val_grows(t, i - start + 1, 255);
                }
            }
            return None;
        }
        acc = acc * 10 + d;
        i = i + 1;
    }
    proof {
        assert(t.take(i - start) =~= t);
        assert(all_digits(t)) by {
            assert(forall|k: int| 0 <= k < t.len() ==> is_digit(#[trigger] t[k]) && t[k] == s@[k + start]);
        }
    }
    Some(acc as u8)
}


/// Lexicographic order on character sequences, by code point; the order
/// of text columns in an embedded store.
pub open spec fn lex_leq(a: Seq<char>, b: Seq<char>) -> bool
    decreases a.len(),
{
    if a.len() == 0 {
        true
    } else if b.len() == 0 {
        false
    } else if (a[0] as u32) < (b[0] as u32) {
        true
    } else if (a[0] as u32) > (b[0] as u32) {
        false
    } else {
        lex_leq(a.drop_first(), b.drop_first())
    }
}

/// `lex_leq` relates every pair of strings.
pub proof fn lemma_lex_total(a: Seq<char>, b: Seq<char>)
    ensures
        lex_leq(a, b) || lex_leq(b, a),
    decreases a.len(),
{
    if a.len() > 0 && b.len() > 0 && (a[0] as u32) == (b[0] as u32) {
        lemma_lex_total(a.drop_first(), b.drop_first());
    }
}

/// `lex_leq` is transitive.
pub proof fn lemma_lex_trans(a: Seq<char>, b: Seq<char>, c: Seq<char>)
    requires
        lex_leq(a, b),
        lex_leq(b, c),
    ensures
        lex_leq(a, c),
    decreases a.len(),
{
    if a.len() > 0 && b.len() > 0 && c.len() > 0 && (a[0] as u32) == (b[0] as u32) && (b[0]
        as u32) == (c[0] as u32) {
        lemma_lex_trans(a.drop_first(), b.drop_first(), c.drop_first());
    }
}

proof fn lemma_lex_skip(a: Seq<char>, b: Seq<char>, i: int)
    requires
        0 <= i <= a.len(),
        i <= b.len(),
        forall|j: int| 0 <= j < i ==> a[j] == b[j],
    ensures
        lex_leq(a, b) == lex_leq(a.skip(i), b.skip(i)),
    decreases i,
{
    if i > 0 {
        assert(a.len() > 0 && b.len() > 0 && a[0] == b[0]);
        assert(a.drop_first() =~= a.skip(1));
        assert(b.drop_first() =~= b.skip(1));
        assert forall|j: int| 0 <= j < i - 1 implies a.skip(1)[j] == b.skip(1)[j] by {
            assert(a.skip(1)[j] == a[j + 1]);
            assert(b.skip(1)[j] == b[j + 1]);
        }
        lemma_lex_skip(a.skip(1), b.skip(1), i - 1);
        assert(a.skip(1).skip(i - 1) =~= a.skip(i));
        assert(b.skip(1).skip(i - 1) =~= b.skip(i));
    } else {
        assert(a.skip(0) =~= a);
        assert(b.skip(0) =~= b);
    }
}

/// Compare two strings lexicographically by code point.
pub fn lex_le(a: &str, b: &str) -> (r: bool)
    ensures
        r == lex_leq(a@, b@),
{
    let la = a.unicode_len();
    let lb = b.unicode_len();
    let min = if la < lb { la } else { lb };
    let mut i: usize = 0;
    while i < min
        invariant
            i <= min,
            la == a@.len(),
            lb == b@.len(),
            min == if la < lb { la } else { lb },
            forall|j: int| 0 <= j < i ==> a@[j] == b@[j],
        decreases min - i,
    {
        let ca = a.get_char(i) as u32;
        let cb = b.get_char(i) as u32;
        if ca < cb {
            proof {
                lemma_lex_skip(a@, b@, i as int);
                assert(a@.skip(i as int)[0] == a@[i as int]);
                assert(b@.skip(i as int)[0] == b@[i as int]);
            }
            return true;
        }
        if ca > cb {
            proof {
                lemma_lex_skip(a@, b@, i as int);
                assert(a@.skip(i as int)[0] == a@[i as int]);
                assert(b@.skip(i as int)[0] == b@[i as int]);
            }
            return false;
        }
        proof {
            assert(a@[i as int] == b@[i as int]) by {
                assert(a@[i as int] as u32 == b@[i as int] as u32);
                assert((a@[i as int] as u32) as char == (b@[i as int] as u32) as char);
                assert((a@[i as int] as u32) as char == a@[i as int]);
            }
        }
        i = i + 1;
    }
    proof {
        lemma_lex_skip(a@, b@, min as int);
        if la <= lb {
            assert(a@.skip(min as int) =~= Seq::<char>::empty());
        } else {
            assert(b@.skip(min as int) =~= Seq::<char>::empty());
            assert(a@.skip(min as int).len() > 0);
        }
    }
    la <= lb
}


/// `needle` occurs contiguously inside `hay`.
pub open spec fn is_substring(needle: Seq<char>, hay: Seq<char>) -> bool {
    exists|o: int|
        0 <= o <= hay.len() - needle.len() && (#[trigger] hay.subrange(o, o + needle.len()))
            == needle
}

fn match_at(hay: &str, needle: &str, o: usize) -> (r: bool)
    requires
        o + needle@.len() <= hay@.len(),
    ensures
        r == (hay@.subrange(o as int, o + needle@.len()) == needle@),
{
    let lh = hay.unicode_len();
    let n = needle.unicode_len();
    let mut i: usize = 0;
    while i < n
        invariant
            i <= n,
            n == needle@.len(),
            lh == hay@.len(),
            o + n <= lh,
            forall|j: int| 0 <= j < i ==> hay@[o + j] == needle@[j],
        decreases n - i,
    {
        if hay.get_char(o + i) != needle.get_char(i) {
            proof {
                assert(hay@.subrange(o as int, o + needle@.len())[i as int] != needle@[i as int]);
            }
            return false;
        }
        i = i + 1;
    }
    proof {
        assert(hay@.subrange(o as int, o + needle@.len()) =~= needle@);
    }
    true
}

/// Substring search, character by character.
pub fn contains_sub(hay: &str, needle: &str) -> (r: bool)
    ensures
        r == is_substring(needle@, hay@),
{
    let lh = hay.unicode_len();
    let ln = needle.unicode_len();
    if ln == 0 {
        proof {
            assert(hay@.subrange(0, 0 + needle@.len() as int) =~= needle@);
            assert(is_substring(needle@, hay@));
        }
        return true;
    }
    if ln > lh {
        proof {
            if is_substring(needle@, hay@) {
                let o = choose|o: int|
                    0 <= o <= hay@.len() - needle@.len() && (#[trigger] hay@.subrange(
                        o,
                        o + needle@.len(),
                    )) == needle@;
                assert(false);
            }
        }
        return false;
    }
    let mut o: usize = 0;
    while o <= lh - ln
        invariant
            1 <= ln <= lh,
            o <= lh - ln + 1,
            lh == hay@.len(),
            ln == needle@.len(),
            forall|k: int|
                0 <= k < o ==> (#[trigger] hay@.subrange(k, k + needle@.len())) != needle@,
        decreases lh - ln - o + 1,
    {
        if match_at(hay, needle, o) {
            return true;
        }
        o = o + 1;
    }
    proof {
        if is_substring(needle@, hay@) {
            let w = choose|w: int|
                0 <= w <= hay@.len() - needle@.len() && (#[trigger] hay@.subrange(
                    w,
                    w + needle@.len(),
                )) == needle@;
            assert(hay@.subrange(w, w + needle@.len()) != needle@);
        }
    }
    false
}


/// Whitespace as trimming understands it.
pub open spec fn is_space(c: char) -> bool {
    c == ' ' || c == '\t' || c == '\n' || c == '\r'
}

/// The string with leading whitespace dropped.
pub open spec fn trim_front(s: Seq<char>) -> Seq<char>
    decreases s.len(),
{
    if s.len() > 0 && is_space(s[0]) {
        trim_front(s.drop_first())
    } else {
        s
    }
}

/// The string with trailing whitespace dropped.
pub open spec fn trim_back(s: Seq<char>) -> Seq<char>
    decreases s.len(),
{
    if s.len() > 0 && is_space(s.last()) {
        trim_back(s.drop_last())
    } else {
        s
    }
}

/// The string with leading and trailing whitespace dropped.
pub open spec fn trim_spec(s: Seq<char>) -> Seq<char> {
    trim_back(trim_front(s))
}

proof fn lemma_trim_front_skip(s: Seq<char>, a: int)
    requires
        0 <= a <= s.len(),
        forall|j: int| 0 <= j < a ==> is_space(#[trigger] s[j]),
        a < s.len() ==> !is_space(s[a]),
    ensures
        trim_front(s) == s.skip(a),
    decreases a,
{
    if a == 0 {
        assert(s.skip(0) =~= s);
    } else {
        assert(is_space(s[0]));
        assert(s.drop_first() =~= s.skip(1));
        assert forall|j: int| 0 <= j < a - 1 implies is_space(#[trigger] s.skip(1)[j]) by {
            assert(s.skip(1)[j] == s[j + 1]);
        }
        lemma_trim_front_skip(s.skip(1), a - 1);
        assert(s.skip(1).skip(a - 1) =~= s.skip(a));
    }
}

proof fn lemma_trim_back_take(t: Seq<char>, b: int)
    requires
        0 <= b <= t.len(),
        forall|j: int| b <= j < t.len() ==> is_space(#[trigger] t[j]),
        b > 0 ==> !is_space(t[b - 1]),
    ensures
        trim_back(t) == t.take(b),
    decreases t.len() - b,
{
    if b == t.len() {
        assert(t.take(b) =~= t);
    } else {
        assert(is_space(t.last()));
        assert forall|j: int| b <= j < t.drop_last().len() implies is_space(
            #[trigger] t.drop_last()[j],
        ) by {
            assert(t.drop_last()[j] == t[j]);
        }
        lemma_trim_back_take(t.drop_last(), b);
        assert(t.drop_last().take(b) =~= t.take(b));
    }
}

fn is_space_exec(c: char) -> (r: bool)
    ensures
        r == is_space(c),
{
    c == ' ' || c == '\t' || c == '\n' || c == '\r'
}

/// Drop leading and trailing whitespace.
pub fn trim_str(s: &str) -> (r: String)
    ensures
        r@ == trim_spec(s@),
{
    let n = s.unicode_len();
    let mut a: usize = 0;
    while a < n && is_space_exec(s.get_char(a))
        invariant
            a <= n,
            n == s@.len(),
            forall|j: int| 0 <= j < a ==> is_space(#[trigger] s@[j]),
        decreases n - a,
    {
        a = a + 1;
    }
    if a == n {
        proof {
            lemma_trim_front_skip(s@, a as int);
            assert(s@.skip(n as int) =~= Seq::<char>::empty());
        }
        return String::new();
    }
    let mut b: usize = n;
    while b > a && is_space_exec(s.get_char(b - 1))
        invariant
            a < b <= n,
            n == s@.len(),
            a < n,
            !is_space(s@[a as int]),
            forall|j: int| b <= j < n ==> is_space(#[trigger] s@[j]),
        decreases b,
    {
        b = b - 1;
    }
    let piece = s.substring_char(a, b);
    let r = piece.to_owned();
    proof {
        lemma_trim_front_skip(s@, a as int);
        let t = s@.skip(a as int);
        assert(!is_space(t[b - a - 1])) by {
            assert(t[b - a - 1] == s@[b - 1]);
        }
        assert forall|j: int| b - a <= j < t.len() implies is_space(#[trigger] t[j]) by {
            assert(t[j] == s@[j + a]);
        }
        lemma_trim_back_take(t, b - a);
        assert(r@ =~= t.take(b - a));
    }
    r
}

} // verus!
