//! Character-level text helpers: building, trimming, splitting, decimal and
//! hexadecimal rendering, decimal parsing and lexicographic comparison.

use vstd::prelude::*;

verus! {

/// An index as a mathematical integer.
pub open spec fn at(i: usize) -> int {
    i as int
}

/// A wide integer as a mathematical integer.
pub open spec fn wide(i: i128) -> int {
    i as int
}

/// Appends one character to a string (`String::push`).
#[verifier::external_body]
pub(crate) fn push_char(s: &mut String, c: char)
    ensures
        final(s)@ == old(s)@.push(c),
{
    s.push(c);
}

/// The characters of a string, in order.
pub fn chars_of(s: &str) -> (v: Vec<char>)
    ensures
        v@ == s@,
{
    let mut v: Vec<char> = Vec::new();
    for c in it: s.chars()
        invariant
            v@ == it.seq().take(it.index() as int),
    {
        v.push(c);
    }
    v
}

/// Builds a string from a sequence of characters.
pub fn string_of(v: &Vec<char>) -> (s: String)
    ensures
        s@ == v@,
{
    let mut s = String::new();
    let mut i: usize = 0;
    while i < v.len()
        invariant
            i <= v.len(),
            s@ == v@.take(i as int),
        decreases v.len() - i,
    {
        push_char(&mut s, v[i]);
        i += 1;
        assert(s@ == v@.take(i as int));
    }
    assert(v@.take(v.len() as int) == v@);
    s
}

/// The decimal digit character for `d` in `0..10`.
pub open spec fn digit_char(d: nat) -> char {
    (48 + d) as char
}

/// The value of an ASCII decimal digit character.
pub open spec fn digit_value(c: char) -> nat {
    (c as u32 - 48) as nat
}

pub open spec fn is_digit(c: char) -> bool {
    '0' <= c && c <= '9'
}

/// The shortest decimal rendering of a natural number.
pub open spec fn decimal(n: nat) -> Seq<char>
    decreases n,
{
    if n < 10 {
        seq![digit_char(n)]
    } else {
        decimal(n / 10).push(digit_char(n % 10))
    }
}

/// The decimal rendering of an integer, with a leading `-` when negative.
pub open spec fn signed_decimal(i: int) -> Seq<char> {
    if i < 0 {
        seq!['-'] + decimal((-i) as nat)
    } else {
        decimal(i as nat)
    }
}

/// The hexadecimal digit character for `d` in `0..16`, lower case.
pub open spec fn hex_char(d: nat) -> char {
    if d < 10 {
        (48 + d) as char
    } else {
        (87 + d) as char
    }
}

/// The shortest lower-case hexadecimal rendering of a natural number.
pub open spec fn hex(n: nat) -> Seq<char>
    decreases n,
{
    if n < 16 {
        seq![hex_char(n)]
    } else {
        hex(n / 16).push(hex_char(n % 16))
    }
}

/// Renders an unsigned number in decimal (as `Display` does).
pub fn format_u128(n: u128) -> (s: String)
    ensures
        s@ == decimal(n as nat),
{
    let mut rev: Vec<char> = Vec::new();
    let mut m: u128 = n;
    let ghost mut tail: Seq<char> = Seq::empty();
    // rev holds the digits of n % 10^k in reverse; m == n / 10^k
    loop
        invariant_except_break
            decimal(n as nat) == decimal(m as nat) + tail,
        invariant
            rev@ == tail.reverse(),
        ensures
            decimal(n as nat) == tail,
        decreases m,
    {
        if m < 10 {
            let c = ((m as u8) + 48) as char;
            assert(c == digit_char(m as nat));
            rev.push(c);
            proof {
                assert(decimal(m as nat) == seq![c]);
                assert(rev@ == (seq![c] + tail).reverse()) by {
                    assert((seq![c] + tail).reverse() =~= tail.reverse().push(c));
                }
                tail = seq![c] + tail;
            }
            break;
        }
        let d = m % 10;
        let c = ((d as u8) + 48) as char;
        assert(c == digit_char(d as nat));
        rev.push(c);
        proof {
            assert(decimal(m as nat) == decimal((m / 10) as nat).push(c));
            assert(decimal(m as nat) + tail =~= decimal((m / 10) as nat) + (seq![c] + tail));
            assert((seq![c] + tail).reverse() =~= tail.reverse().push(c));
            tail = seq![c] + tail;
        }
        m = m / 10;
    }
    assert(decimal(n as nat) == tail);
    let mut s = String::new();
    let mut i: usize = rev.len();
    while i > 0
        invariant
            i <= rev.len(),
            rev@ == tail.reverse(),
            s@ == tail.take((rev.len() - i) as int),
        decreases i,
    {
        i -= 1;
        proof {
            assert(rev@[i as int] == tail[(rev.len() - 1 - i) as int]);
        }
        push_char(&mut s, rev[i]);
        assert(s@ =~= tail.take((rev.len() - i) as int));
    }
    assert(tail.take(rev.len() as int) =~= tail);
    s
}

/// Renders an unsigned 64-bit number in decimal.
pub fn format_u64(n: u64) -> (s: String)
    ensures
        s@ == decimal(n as nat),
{
    format_u128(n as u128)
}

/// Renders a signed 64-bit number in decimal.
pub fn format_i64(i: i64) -> (s: String)
    ensures
        s@ == signed_decimal(i as int),
{
    if i < 0 {
        let mag: u128 = (0i128 - (i as i128)) as u128;
        let digits = format_u128(mag);
        let mut s = String::new();
        push_char(&mut s, '-');
        s.append(digits.as_str());
        s
    } else {
        format_u128(i as u128)
    }
}

/// Renders an unsigned number in lower-case hexadecimal (as `{:x}` does).
pub fn format_hex(n: u128) -> (s: String)
    ensures
        s@ == hex(n as nat),
{
    let mut rev: Vec<char> = Vec::new();
    let mut m: u128 = n;
    let ghost mut tail: Seq<char> = Seq::empty();
    loop
        invariant_except_break
            hex(n as nat) == hex(m as nat) + tail,
        invariant
            rev@ == tail.reverse(),
        ensures
            hex(n as nat) == tail,
        decreases m,
    {
        let d = m % 16;
        let c = if d < 10 { ((d as u8) + 48) as char } else { ((d as u8) + 87) as char };
        assert(c == hex_char(d as nat));
        rev.push(c);
        if m < 16 {
            proof {
                assert(hex(m as nat) == seq![c]);
                assert((seq![c] + tail).reverse() =~= tail.reverse().push(c));
                tail = seq![c] + tail;
            }
            break;
        }
        proof {
            assert(hex(m as nat) == hex((m / 16) as nat).push(c));
            assert(hex(m as nat) + tail =~= hex((m / 16) as nat) + (seq![c] + tail));
            assert((seq![c] + tail).reverse() =~= tail.reverse().push(c));
            tail = seq![c] + tail;
        }
        m = m / 16;
    }
    assert(hex(n as nat) == tail);
    let mut s = String::new();
    let mut i: usize = rev.len();
    while i > 0
        invariant
            i <= rev.len(),
            rev@ == tail.reverse(),
            s@ == tail.take((rev.len() - i) as int),
        decreases i,
    {
        i -= 1;
        proof {
            assert(rev@[i as int] == tail[(rev.len() - 1 - i) as int]);
        }
        push_char(&mut s, rev[i]);
        assert(s@ =~= tail.take((rev.len() - i) as int));
    }
    assert(tail.take(rev.len() as int) =~= tail);
    s
}

/// Unicode `White_Space`, the property that `char::is_whitespace` tests.
pub open spec fn is_white_space(c: char) -> bool {
    ||| ('\u{9}' <= c && c <= '\u{d}')
    ||| c == ' '
    ||| c == '\u{85}'
    ||| c == '\u{a0}'
    ||| c == '\u{1680}'
    ||| ('\u{2000}' <= c && c <= '\u{200a}')
    ||| c == '\u{2028}'
    ||| c == '\u{2029}'
    ||| c == '\u{202f}'
    ||| c == '\u{205f}'
    ||| c == '\u{3000}'
}

/// Whether `c` is Unicode white space.
pub fn char_is_white_space(c: char) -> (r: bool)
    ensures
        r == is_white_space(c),
{
    ('\u{9}' <= c && c <= '\u{d}') || c == ' ' || c == '\u{85}' || c == '\u{a0}' || c == '\u{1680}'
        || ('\u{2000}' <= c && c <= '\u{200a}') || c == '\u{2028}' || c == '\u{2029}' || c
        == '\u{202f}' || c == '\u{205f}' || c == '\u{3000}'
}

/// What a trim removes from both ends: white space, or one given character.
pub enum TrimSet {
    WhiteSpace,
    Char(char),
}

impl TrimSet {
    pub open spec fn holds(self, c: char) -> bool {
        match self {
            TrimSet::WhiteSpace => is_white_space(c),
            TrimSet::Char(t) => c == t,
        }
    }

    pub fn test(&self, c: char) -> (r: bool)
        ensures
            r == self.holds(c),
    {
        match self {
            TrimSet::WhiteSpace => char_is_white_space(c),
            TrimSet::Char(t) => c == *t,
        }
    }
}

/// `s` without its leading characters in `set`.
pub open spec fn trim_start_by(s: Seq<char>, set: TrimSet) -> Seq<char>
    decreases s.len(),
{
    if s.len() > 0 && set.holds(s[0]) {
        trim_start_by(s.drop_first(), set)
    } else {
        s
    }
}

/// `s` without its trailing characters in `set`.
pub open spec fn trim_end_by(s: Seq<char>, set: TrimSet) -> Seq<char>
    decreases s.len(),
{
    if s.len() > 0 && set.holds(s.last()) {
        trim_end_by(s.drop_last(), set)
    } else {
        s
    }
}

/// `s` without its leading and trailing characters in `set` (`str::trim`,
/// `str::trim_matches`).
pub open spec fn trim_by(s: Seq<char>, set: TrimSet) -> Seq<char> {
    trim_end_by(trim_start_by(s, set), set)
}

/// Trims the characters of `set` from both ends of `s`.
pub fn trim_chars(s: &Vec<char>, set: &TrimSet) -> (r: Vec<char>)
    ensures
        r@ == trim_by(s@, *set),
{
    let n = s.len();
    let mut i: usize = 0;
    assert(s@.subrange(0, n as int) =~= s@);
    while i < n && set.test(s[i])
        invariant
            i <= n,
            n == s@.len(),
            trim_start_by(s@, *set) == trim_start_by(s@.subrange(i as int, n as int), *set),
        decreases n - i,
    {
        proof {
            let t = s@.subrange(i as int, n as int);
            assert(t.drop_first() =~= s@.subrange(i + 1, n as int));
        }
        i += 1;
    }
    proof {
        let t = s@.subrange(i as int, n as int);
        assert(trim_start_by(t, *set) == t);
    }
    let mut j: usize = n;
    while j > i && set.test(s[j - 1])
        invariant
            i <= j <= n,
            n == s@.len(),
            trim_by(s@, *set) == trim_end_by(s@.subrange(i as int, j as int), *set),
        decreases j,
    {
        proof {
            let t = s@.subrange(i as int, j as int);
            assert(t.drop_last() =~= s@.subrange(i as int, j - 1));
        }
        j -= 1;
    }
    let mut r: Vec<char> = Vec::new();
    let mut k: usize = i;
    while k < j
        invariant
            i <= k <= j <= n,
            n == s@.len(),
            r@ == s@.subrange(i as int, k as int),
        decreases j - k,
    {
        r.push(s[k]);
        k += 1;
        assert(r@ =~= s@.subrange(i as int, k as int));
    }
    r
}

/// `str::trim`: removes leading and trailing white space.
pub fn trim(s: &str) -> (r: String)
    ensures
        r@ == trim_by(s@, TrimSet::WhiteSpace),
{
    let v = chars_of(s);
    let t = trim_chars(&v, &TrimSet::WhiteSpace);
    string_of(&t)
}

/// `str::trim_matches` with one character.
pub fn trim_matches(s: &str, c: char) -> (r: String)
    ensures
        r@ == trim_by(s@, TrimSet::Char(c)),
{
    let v = chars_of(s);
    let t = trim_chars(&v, &TrimSet::Char(c));
    string_of(&t)
}

/// The index of the first occurrence of `c` in `s`.
pub open spec fn first_index(s: Seq<char>, c: char) -> Option<nat>
    decreases s.len(),
{
    if s.len() == 0 {
        None
    } else if s[0] == c {
        Some(0nat)
    } else {
        match first_index(s.drop_first(), c) {
            Some(i) => Some(i + 1),
            None => None,
        }
    }
}

/// `str::split_once` on one character: the parts before and after its first occurrence.
pub open spec fn split_once_spec(s: Seq<char>, c: char) -> Option<(Seq<char>, Seq<char>)> {
    match first_index(s, c) {
        Some(i) => Some((s.take(i as int), s.skip(i as int + 1))),
        None => None,
    }
}

proof fn lemma_first_index(s: Seq<char>, c: char, i: int)
    requires
        0 <= i <= s.len(),
        forall|k: int| 0 <= k < i ==> s[k] != c,
    ensures
        first_index(s, c) == (match first_index(s.skip(i), c) {
            Some(j) => Some((j + i) as nat),
            None => None::<nat>,
        }),
    decreases i,
{
    if i > 0 {
        lemma_first_index(s.drop_first(), c, i - 1);
        assert(s.drop_first().skip(i - 1) =~= s.skip(i));
    } else {
        assert(s.skip(0) =~= s);
    }
}

/// Splits `s` at the first occurrence of `c`.
pub fn split_once(s: &str, c: char) -> (r: Option<(String, String)>)
    ensures
        match r {
            Some((a, b)) => split_once_spec(s@, c) == Some((a@, b@)),
            None => split_once_spec(s@, c) is None,
        },
{
    let v = chars_of(s);
    let n = v.len();
    let mut i: usize = 0;
    while i < n && v[i] != c
        invariant
            i <= n,
            n == v@.len(),
            v@ == s@,
            forall|k: int| 0 <= k < i ==> v@[k] != c,
        decreases n - i,
    {
        i += 1;
    }
    proof {
        lemma_first_index(v@, c, i as int);
    }
    if i == n {
        assert(v@.skip(n as int).len() == 0);
        return None;
    }
    assert(v@.skip(i as int)[0] == c);
    let mut a: Vec<char> = Vec::new();
    let mut k: usize = 0;
    while k < i
        invariant
            k <= i < n,
            n == v@.len(),
            a@ == v@.take(k as int),
        decreases i - k,
    {
        a.push(v[k]);
        k += 1;
        assert(a@ =~= v@.take(k as int));
    }
    let mut b: Vec<char> = Vec::new();
    let mut m: usize = i + 1;
    while m < n
        invariant
            i < m <= n,
            n == v@.len(),
            b@ == v@.subrange(i + 1, m as int),
        decreases n - m,
    {
        b.push(v[m]);
        m += 1;
        assert(b@ =~= v@.subrange(i + 1, m as int));
    }
    assert(b@ =~= v@.skip(i + 1));
    Some((string_of(&a), string_of(&b)))
}

/// Whether `s` begins with `c`.
pub fn starts_with_char(s: &str, c: char) -> (r: bool)
    ensures
        r == (s@.len() > 0 && s@[0] == c),
{
    let n = s.unicode_len();
    n > 0 && s.get_char(0) == c
}

/// Whether `s` ends with `suffix`.
pub fn ends_with(s: &str, suffix: &str) -> (r: bool)
    ensures
        r == (suffix@.len() <= s@.len() && s@.skip(s@.len() - suffix@.len()) == suffix@),
{
    let a = chars_of(s);
    let b = chars_of(suffix);
    if b.len() > a.len() {
        return false;
    }
    let off = a.len() - b.len();
    let mut i: usize = 0;
    while i < b.len()
        invariant
            i <= b@.len(),
            off + b@.len() == a@.len(),
            a@.len() <= usize::MAX,
            a@ == s@,
            b@ == suffix@,
            forall|k: int| 0 <= k < i ==> a@[off + k] == b@[k],
        decreases b.len() - i,
    {
        if a[off + i] != b[i] {
            assert(s@.skip(off as int)[i as int] != suffix@[i as int]);
            return false;
        }
        i += 1;
    }
    assert(s@.skip(off as int) =~= suffix@);
    true
}

/// Whether every character of `s` is an ASCII digit.
pub open spec fn all_digits(s: Seq<char>) -> bool {
    forall|i: int| 0 <= i < s.len() ==> is_digit(#[trigger] s[i])
}

/// The value of a sequence of decimal digits.
pub open spec fn digits_value(s: Seq<char>) -> nat
    decreases s.len(),
{
    if s.len() == 0 {
        0
    } else {
        digits_value(s.drop_last()) * 10 + digit_value(s.last())
    }
}

/// `str::parse` for an unsigned integer type whose largest value is `max`:
/// an optional `+`, then one or more ASCII digits whose value is at most `max`.
pub open spec fn parse_unsigned(s: Seq<char>, max: nat) -> Option<nat> {
    let d = if s.len() > 0 && s[0] == '+' { s.drop_first() } else { s };
    if d.len() > 0 && all_digits(d) && digits_value(d) <= max {
        Some(digits_value(d))
    } else {
        None
    }
}

proof fn lemma_digits_value_grows(s: Seq<char>, k: int)
    requires
        0 <= k <= s.len(),
        all_digits(s),
    ensures
        digits_value(s.take(k)) <= digits_value(s),
    decreases s.len() - k,
{
    if k < s.len() {
        lemma_digits_value_grows(s, k + 1);
        assert(s.take(k + 1).drop_last() =~= s.take(k));
    } else {
        assert(s.take(k) =~= s);
    }
}

/// Parses an unsigned decimal number no larger than `max`, as `str::parse` does
/// for the unsigned type whose largest value is `max`.
pub fn parse_unsigned_at_most(s: &str, max: u64) -> (r: Option<u64>)
    ensures
        match r {
            Some(v) => parse_unsigned(s@, max as nat) == Some(v as nat),
            None => parse_unsigned(s@, max as nat) is None,
        },
{
    let v = chars_of(s);
    let n = v.len();
    let start: usize = if n > 0 && v[0] == '+' { 1 } else { 0 };
    let ghost d = if s@.len() > 0 && s@[0] == '+' { s@.drop_first() } else { s@ };
    assert(d =~= v@.skip(start as int));
    if start == n {
        return None;
    }
    let mut value: u64 = 0;
    let mut i: usize = start;
    while i < n
        invariant
            start <= i <= n,
            n == v@.len(),
            d == v@.skip(start as int),
            v@ == s@,
            d == (if s@.len() > 0 && s@[0] == '+' { s@.drop_first() } else { s@ }),
            value as nat == digits_value(d.take(i - start)),
            all_digits(d.take(i - start)),
            value <= max,
        decreases n - i,
    {
        let c = v[i];
        if !('0' <= c && c <= '9') {
            assert(d[i - start] == c);
            return None;
        }
        let dv: u64 = (c as u32 - 48) as u64;
        proof {
            assert(d.take(i - start + 1).drop_last() =~= d.take(i - start));
            assert(d.take(i - start + 1).last() == c);
            assert(all_digits(d.take(i - start + 1)));
        }
        if dv > max || value > (max - dv) / 10 {
            proof {
                assert(digits_value(d.take(i - start + 1)) == value * 10 + dv);
                assert(value * 10 + dv > max) by (nonlinear_arith)
                    requires dv > max || value > (max - dv) / 10, dv <= max ==> max - dv >= 0;
                if all_digits(d) {
                    lemma_digits_value_grows(d, i - start + 1);
                }
            }
            return None;
        }
        proof {
            assert(value * 10 + dv <= max) by (nonlinear_arith)
                requires value <= (max - dv) / 10, dv <= max;
        }
        value = value * 10 + dv;
        i += 1;
    }
    assert(d.take(n - start) =~= d);
    Some(value)
}

/// The first occurrence of `c` in `s` is at `i` when `s[i] == c` and no
/// earlier character is `c`.
pub proof fn lemma_first_index_at(s: Seq<char>, c: char, i: int)
    requires
        0 <= i < s.len(),
        s[i] == c,
        forall|k: int| 0 <= k < i ==> s[k] != c,
    ensures
        first_index(s, c) == Some(i as nat),
{
    lemma_first_index(s, c, i);
    assert(s.skip(i)[0] == c);
}

/// A sequence without `c` has no first occurrence of it.
pub proof fn lemma_no_index(s: Seq<char>, c: char)
    requires
        forall|k: int| 0 <= k < s.len() ==> s[k] != c,
    ensures
        first_index(s, c) is None,
{
    lemma_first_index(s, c, s.len() as int);
    assert(s.skip(s.len() as int).len() == 0);
}

/// A first occurrence is a position inside the sequence.
pub proof fn lemma_first_index_bound(s: Seq<char>, c: char)
    ensures
        first_index(s, c) matches Some(i) ==> i < s.len(),
    decreases s.len(),
{
    if s.len() > 0 {
        lemma_first_index_bound(s.drop_first(), c);
    }
}

/// The first occurrence holds `c`, and no earlier character does.
pub proof fn lemma_first_index_props(s: Seq<char>, c: char)
    ensures
        first_index(s, c) matches Some(i) ==> (i < s.len() && s[i as int] == c && forall|k: int| 0 <= k < i ==> s[k] != c),
        first_index(s, c) is None ==> forall|k: int| 0 <= k < s.len() ==> s[k] != c,
    decreases s.len(),
{
    if s.len() > 0 {
        lemma_first_index_props(s.drop_first(), c);
        if first_index(s, c) is None {
            assert forall|k: int| 0 <= k < s.len() implies s[k] != c by {
                if k > 0 {
                    assert(s.drop_first()[k - 1] == s[k]);
                }
            }
        }
        if let Some(i) = first_index(s, c) {
            if i > 0 {
                assert forall|k: int| 0 <= k < i implies s[k] != c by {
                    if k > 0 {
                        assert(s.drop_first()[k - 1] == s[k]);
                    }
                }
            }
        }
    }
}

/// Every character of a hexadecimal rendering is a hex digit, never `-`.
pub proof fn lemma_hex_digits(n: nat)
    ensures
        hex(n).len() >= 1,
        forall|i: int| 0 <= i < hex(n).len() ==> #[trigger] hex(n)[i] != '-',
    decreases n,
{
    if n >= 16 {
        lemma_hex_digits(n / 16);
        assert forall|i: int| 0 <= i < hex(n).len() implies #[trigger] hex(n)[i] != '-' by {
            if i < hex(n / 16).len() {
                assert(hex(n)[i] == hex(n / 16)[i]);
            }
        }
    }
}

proof fn lemma_hex_char_injective(a: nat, b: nat)
    requires
        a < 16,
        b < 16,
        hex_char(a) == hex_char(b),
    ensures
        a == b,
{
    assert(hex_char(a) as u32 == if a < 10 { 48 + a } else { 87 + a });
    assert(hex_char(b) as u32 == if b < 10 { 48 + b } else { 87 + b });
}

/// Different numbers have different hexadecimal renderings.
pub proof fn lemma_hex_injective(n: nat, m: nat)
    requires
        hex(n) == hex(m),
    ensures
        n == m,
    decreases n,
{
    lemma_hex_digits(n / 16);
    lemma_hex_digits(m / 16);
    if n < 16 && m < 16 {
        assert(hex(n) == seq![hex_char(n)]);
        assert(hex(m) == seq![hex_char(m)]);
        assert(hex(n)[0] == hex(m)[0]);
        assert(seq![hex_char(n)][0] == hex_char(n));
        assert(hex_char(n) == hex_char(m));
        lemma_hex_char_injective(n, m);
    } else if n >= 16 && m >= 16 {
        assert(hex(n) == hex(n / 16).push(hex_char(n % 16)));
        assert(hex(m) == hex(m / 16).push(hex_char(m % 16)));
        assert(hex(n).last() == hex(m).last());
        assert(hex(n / 16).push(hex_char(n % 16)).last() == hex_char(n % 16));
        assert(hex(m / 16).push(hex_char(m % 16)).last() == hex_char(m % 16));
        assert(hex_char(n % 16) == hex_char(m % 16));
        assert(hex(n).drop_last() =~= hex(n / 16));
        assert(hex(m).drop_last() =~= hex(m / 16));
        lemma_hex_char_injective(n % 16, m % 16);
        lemma_hex_injective(n / 16, m / 16);
    } else {
        assert(hex(n).len() != hex(m).len());
    }
}

}
