//! Character-level helpers over `str`: trimming, exact comparison, the
//! lexicographic order of `str`, splitting on a single comma and reading
//! decimal digits.
use vstd::prelude::*;
use vstd::string::*;

verus! {

/// The Unicode `White_Space` code points: what `str::trim` strips.
pub open spec fn is_space(c: char) -> bool {
    let u = c as int;
    (0x09 <= u && u <= 0x0D) || u == 0x20 || u == 0x85 || u == 0xA0 || u == 0x1680 || (0x2000
        <= u && u <= 0x200A) || u == 0x2028 || u == 0x2029 || u == 0x202F || u == 0x205F || u
        == 0x3000
}

pub open spec fn trim_start(s: Seq<char>) -> Seq<char>
    decreases s.len(),
{
    if s.len() > 0 && is_space(s[0]) {
        trim_start(s.drop_first())
    } else {
        s
    }
}

pub open spec fn trim_end(s: Seq<char>) -> Seq<char>
    decreases s.len(),
{
    if s.len() > 0 && is_space(s.last()) {
        trim_end(s.drop_last())
    } else {
        s
    }
}

/// `s` without its leading and trailing white space.
pub open spec fn trimmed(s: Seq<char>) -> Seq<char> {
    trim_end(trim_start(s))
}

pub fn is_space_char(c: char) -> (r: bool)
    ensures
        r == is_space(c),
{
    let u = c as u32;
    (0x09 <= u && u <= 0x0D) || u == 0x20 || u == 0x85 || u == 0xA0 || u == 0x1680 || (0x2000
        <= u && u <= 0x200A) || u == 0x2028 || u == 0x2029 || u == 0x202F || u == 0x205F || u
        == 0x3000
}

/// A copy of `s` without its leading and trailing white space.
pub fn trim(s: &str) -> (r: String)
    ensures
        r@ == trimmed(s@),
{
    let n = s.unicode_len();
    let mut i: usize = 0;
    assert(s@.subrange(0, n as int) =~= s@);
    while i < n && is_space_char(s.get_char(i))
        invariant
            i <= n,
            n == s@.len(),
            trim_start(s@) == trim_start(s@.subrange(i as int, n as int)),
        decreases n - i,
    {
        assert(s@.subrange(i + 1, n as int) =~= s@.subrange(i as int, n as int).drop_first());
        i += 1;
    }
    assert(trim_start(s@) == s@.subrange(i as int, n as int));
    let mut j: usize = n;
    while j > i && is_space_char(s.get_char(j - 1))
        invariant
            i <= j <= n,
            n == s@.len(),
            trim_end(s@.subrange(i as int, n as int)) == trim_end(
                s@.subrange(i as int, j as int),
            ),
        decreases j,
    {
        assert(s@.subrange(i as int, j - 1) =~= s@.subrange(i as int, j as int).drop_last());
        j -= 1;
    }
    assert(trim_end(s@.subrange(i as int, j as int)) == s@.subrange(i as int, j as int));
    s.substring_char(i, j).to_owned()
}

/// Whether the two strings hold the same characters.
pub fn str_eq(a: &str, b: &str) -> (r: bool)
    ensures
        r == (a@ == b@),
{
    let n = a.unicode_len();
    let m = b.unicode_len();
    if n != m {
        return false;
    }
    let mut i: usize = 0;
    while i < n
        invariant
            i <= n,
            n == a@.len(),
            m == b@.len(),
            n == m,
            a@.take(i as int) == b@.take(i as int),
        decreases n - i,
    {
        if a.get_char(i) != b.get_char(i) {
            assert(a@[i as int] != b@[i as int]);
            return false;
        }
        assert(a@.take(i + 1) =~= a@.take(i as int).push(a@[i as int]));
        assert(b@.take(i + 1) =~= b@.take(i as int).push(b@[i as int]));
        i += 1;
    }
    assert(a@ =~= a@.take(n as int));
    assert(b@ =~= b@.take(n as int));
    true
}

/// The order of `str`: by code point, a proper prefix first.
pub open spec fn lex_less(a: Seq<char>, b: Seq<char>) -> bool
    decreases a.len(),
{
    if a.len() == 0 {
        b.len() > 0
    } else if b.len() == 0 {
        false
    } else if a[0] != b[0] {
        (a[0] as int) < (b[0] as int)
    } else {
        lex_less(a.drop_first(), b.drop_first())
    }
}

pub proof fn lemma_lex_irreflexive(a: Seq<char>)
    ensures
        !lex_less(a, a),
    decreases a.len(),
{
    if a.len() > 0 {
        lemma_lex_irreflexive(a.drop_first());
    }
}

pub proof fn lemma_lex_transitive(a: Seq<char>, b: Seq<char>, c: Seq<char>)
    requires
        lex_less(a, b),
        lex_less(b, c),
    ensures
        lex_less(a, c),
    decreases a.len(),
{
    if a.len() > 0 && b.len() > 0 && c.len() > 0 && a[0] == b[0] && b[0] == c[0] {
        lemma_lex_transitive(a.drop_first(), b.drop_first(), c.drop_first());
    }
}

pub proof fn lemma_lex_total(a: Seq<char>, b: Seq<char>)
    requires
        a != b,
    ensures
        lex_less(a, b) || lex_less(b, a),
    decreases a.len(),
{
    if a.len() > 0 && b.len() > 0 && a[0] == b[0] {
        if a.drop_first() == b.drop_first() {
            assert(a =~= seq![a[0]] + a.drop_first());
            assert(b =~= seq![b[0]] + b.drop_first());
        }
        lemma_lex_total(a.drop_first(), b.drop_first());
    } else if a.len() > 0 && b.len() > 0 {
        assert((a[0] as int) != (b[0] as int));
    } else if a.len() == 0 && b.len() == 0 {
        assert(a =~= b);
    }
}

/// Whether `a` comes strictly before `b` in the order of `str`.
pub fn str_less(a: &str, b: &str) -> (r: bool)
    ensures
        r == lex_less(a@, b@),
{
    let n = a.unicode_len();
    let m = b.unicode_len();
    let mut i: usize = 0;
    assert(a@.skip(0) =~= a@);
    assert(b@.skip(0) =~= b@);
    while i < n && i < m
        invariant
            i <= n,
            i <= m,
            n == a@.len(),
            m == b@.len(),
            lex_less(a@, b@) == lex_less(a@.skip(i as int), b@.skip(i as int)),
        decreases n - i,
    {
        let x = a.get_char(i);
        let y = b.get_char(i);
        if x != y {
            return (x as u32) < (y as u32);
        }
        assert(a@.skip(i + 1) =~= a@.skip(i as int).drop_first());
        assert(b@.skip(i + 1) =~= b@.skip(i as int).drop_first());
        i += 1;
    }
    i == n && i < m
}

/// Position `k` holds the only comma of `s`.
pub open spec fn is_sole_comma(s: Seq<char>, k: int) -> bool {
    0 <= k < s.len() && s[k] == ',' && forall|j: int| 0 <= j < s.len() && j != k ==> s[j] != ','
}

/// The two fields of `s` split on the comma, when `s` holds exactly one.
pub open spec fn comma_split(s: Seq<char>) -> Option<(Seq<char>, Seq<char>)> {
    if exists|k: int| is_sole_comma(s, k) {
        let k = choose|k: int| is_sole_comma(s, k);
        Some((s.take(k), s.skip(k + 1)))
    } else {
        None
    }
}

/// Splits `s` on the comma into two fields when it holds exactly one comma.
pub fn split_pair(s: &str) -> (r: Option<(String, String)>)
    ensures
        match r {
            Some((a, b)) => comma_split(s@) == Some((a@, b@)),
            None => comma_split(s@) is None,
        },
{
    let n = s.unicode_len();
    let mut count: usize = 0;
    let mut pos: usize = 0;
    let mut i: usize = 0;
    while i < n
        invariant
            i <= n,
            n == s@.len(),
            count <= 2,
            count == 0 ==> forall|j: int| 0 <= j < i ==> s@[j] != ',',
            count >= 1 ==> pos < i && s@[pos as int] == ',',
            count == 1 ==> forall|j: int| 0 <= j < i && j != pos ==> s@[j] != ',',
            count == 2 ==> exists|j: int| 0 <= j < i && j != pos && s@[j] == ',',
        decreases n - i,
    {
        if s.get_char(i) == ',' {
            if count == 0 {
                pos = i;
                count = 1;
            } else {
                count = 2;
                assert(s@[i as int] == ',');
            }
        }
        i += 1;
    }
    if count == 1 {
        assert(is_sole_comma(s@, pos as int));
        assert(forall|k: int| is_sole_comma(s@, k) ==> k == pos);
        let first = s.substring_char(0, pos).to_owned();
        let second = s.substring_char(pos + 1, n).to_owned();
        assert(first@ =~= s@.take(pos as int));
        assert(second@ =~= s@.skip(pos + 1));
        Some((first, second))
    } else {
        assert forall|k: int| !is_sole_comma(s@, k) by {
            if is_sole_comma(s@, k) {
                if count == 2 {
                    let j = choose|j: int| 0 <= j < i && j != pos && s@[j] == ',';
                    assert(j == k || pos == k);
                }
            }
        }
        None
    }
}

/// Two comma-free fields joined by a comma split back into the same two.
pub proof fn lemma_comma_split_join(a: Seq<char>, b: Seq<char>)
    requires
        forall|i: int| 0 <= i < a.len() ==> a[i] != ',',
        forall|i: int| 0 <= i < b.len() ==> b[i] != ',',
    ensures
        comma_split(a + seq![','] + b) == Some((a, b)),
{
    let s = a + seq![','] + b;
    let k = a.len() as int;
    assert(s[k] == ',');
    assert forall|j: int| 0 <= j < s.len() && j != k implies s[j] != ',' by {
        if j < k {
            assert(s[j] == a[j]);
        } else {
            assert(s[j] == b[j - k - 1]);
        }
    }
    assert(is_sole_comma(s, k));
    assert(forall|q: int| is_sole_comma(s, q) ==> q == k);
    assert(s.take(k) =~= a);
    assert(s.skip(k + 1) =~= b);
}

pub open spec fn is_digit(c: char) -> bool {
    0x30 <= (c as int) && (c as int) <= 0x39
}

pub open spec fn all_digits(s: Seq<char>) -> bool {
    forall|i: int| 0 <= i < s.len() ==> is_digit(#[trigger] s[i])
}

/// The number that the decimal digits of `s` write.
pub open spec fn digits_value(s: Seq<char>) -> int
    decreases s.len(),
{
    if s.len() == 0 {
        0
    } else {
        digits_value(s.drop_last()) * 10 + ((s.last() as int) - 0x30)
    }
}

pub proof fn lemma_digits_prefix(s: Seq<char>, k: int)
    requires
        all_digits(s),
        0 <= k <= s.len(),
    ensures
        0 <= digits_value(s.take(k)) <= digits_value(s),
    decreases s.len() - k,
{
    if k == s.len() {
        assert(s.take(k) =~= s);
        lemma_digits_nonneg(s);
    } else {
        lemma_digits_prefix(s, k + 1);
        assert(s.take(k + 1).drop_last() =~= s.take(k));
        lemma_digits_nonneg(s.take(k));
    }
}

pub proof fn lemma_digits_nonneg(s: Seq<char>)
    requires
        all_digits(s),
    ensures
        digits_value(s) >= 0,
    decreases s.len(),
{
    if s.len() > 0 {
        lemma_digits_nonneg(s.drop_last());
    }
}

/// Extends the number written by `p` (whose value is `start`) with the digits
/// of `s` from `lo` to `hi`, as long as the result fits in a `u64`.
fn read_digits(s: &str, lo: usize, hi: usize, start: u64, Ghost(p): Ghost<Seq<char>>) -> (r:
    Option<u64>)
    requires
        lo <= hi <= s@.len(),
        all_digits(p),
        digits_value(p) == start,
    ensures
        ({
            let d = p + s@.subrange(lo as int, hi as int);
            r == if all_digits(d) && digits_value(d) <= u64::MAX {
                Some(digits_value(d) as u64)
            } else {
                None
            }
        }),
{
    let ghost d = p + s@.subrange(lo as int, hi as int);
    let mut acc: u64 = start;
    let mut i: usize = lo;
    assert(d.take(p.len() as int) =~= p);
    while i < hi
        invariant
            lo <= i <= hi <= s@.len(),
            d == p + s@.subrange(lo as int, hi as int),
            all_digits(d.take(p.len() + i - lo)),
            acc == digits_value(d.take(p.len() + i - lo)),
        decreases hi - i,
    {
        let ghost m = p.len() + i - lo;
        let c = s.get_char(i);
        assert(d[m] == c);
        if !(0x30 <= (c as u32) && (c as u32) <= 0x39) {
            return None;
        }
        assert(d.take(m + 1).drop_last() =~= d.take(m));
        assert(all_digits(d.take(m + 1)));
        let dig = (c as u32 - 0x30) as u64;
        if acc > (u64::MAX - dig) / 10 {
            proof {
                if all_digits(d) {
                    lemma_digits_prefix(d, m + 1);
                }
            }
            return None;
        }
        acc = acc * 10 + dig;
        i += 1;
    }
    assert(d.take(d.len() as int) =~= d);
    Some(acc)
}

/// What `str::parse::<u32>` accepts: an optional `+`, then at least one digit,
/// writing a number no larger than `u32::MAX`.
pub open spec fn u32_of(s: Seq<char>) -> Option<u32> {
    let d = if s.len() > 0 && s[0] == '+' {
        s.drop_first()
    } else {
        s
    };
    if d.len() > 0 && all_digits(d) && digits_value(d) <= u32::MAX {
        Some(digits_value(d) as u32)
    } else {
        None
    }
}

/// Reads a `u32` written in decimal.
pub fn parse_u32(s: &str) -> (r: Option<u32>)
    ensures
        r == u32_of(s@),
{
    let n = s.unicode_len();
    let lo: usize = if n > 0 && s.get_char(0) == '+' {
        1
    } else {
        0
    };
    assert(s@.subrange(lo as int, n as int) =~= if s@.len() > 0 && s@[0] == '+' {
        s@.drop_first()
    } else {
        s@
    });
    if lo == n {
        return None;
    }
    let ghost e: Seq<char> = Seq::empty();
    let ghost d = s@.subrange(lo as int, n as int);
    assert(e + d =~= d);
    let r = read_digits(s, lo, n, 0, Ghost(e));
    match r {
        Some(v) => {
            assert(all_digits(e + d));
            proof {
                lemma_digits_nonneg(d);
            }
            if v <= 0xFFFF_FFFF {
                Some(v as u32)
            } else {
                None
            }
        },
        None => None,
    }
}


/// Length of the optional sign in front of a number.
pub open spec fn sign_len(s: Seq<char>) -> int {
    if s.len() > 0 && (s[0] == '+' || s[0] == '-') {
        1
    } else {
        0
    }
}

/// Position `k` of `b` holds `c1` or `c2`, and no earlier position does.
pub open spec fn is_first_of(b: Seq<char>, k: int, c1: char, c2: char) -> bool {
    0 <= k < b.len() && (b[k] == c1 || b[k] == c2) && forall|j: int|
        0 <= j < k ==> b[j] != c1 && b[j] != c2
}

/// The first position of `c1` or `c2` in `b`, or its length when neither occurs.
pub open spec fn first_of(b: Seq<char>, c1: char, c2: char) -> int {
    if exists|k: int| is_first_of(b, k, c1, c2) {
        choose|k: int| is_first_of(b, k, c1, c2)
    } else {
        b.len() as int
    }
}

/// Digits with at most one point among them, at least one digit in all.
pub open spec fn is_mantissa(m: Seq<char>) -> bool {
    let k = first_of(m, '.', '.');
    let ip = m.take(k);
    let fp = if k < m.len() {
        m.skip(k + 1)
    } else {
        Seq::empty()
    };
    all_digits(ip) && all_digits(fp) && ip.len() + fp.len() > 0
}

/// An optional sign, then at least one digit.
pub open spec fn is_exponent(x: Seq<char>) -> bool {
    let d = x.skip(sign_len(x));
    d.len() > 0 && all_digits(d)
}

/// A mantissa, then optionally `e` or `E` and an exponent.
pub open spec fn is_number(b: Seq<char>) -> bool {
    let k = first_of(b, 'e', 'E');
    is_mantissa(b.take(k)) && (k == b.len() || is_exponent(b.skip(k + 1)))
}

/// `c` is `w`, or its ASCII capital when `w` is a small ASCII letter.
pub open spec fn ci_eq(c: char, w: char) -> bool {
    c == w || (0x61 <= (w as int) <= 0x7A && (c as int) + 32 == (w as int))
}

/// `b` spells the lower-case word `w`, ignoring ASCII case.
pub open spec fn ci_word(b: Seq<char>, w: Seq<char>) -> bool {
    b.len() == w.len() && forall|i: int| 0 <= i < b.len() ==> ci_eq(b[i], w[i])
}

/// What `str::parse::<f64>` accepts: an optional sign, then `inf`,
/// `infinity` or `nan` in any case, or a number.
pub open spec fn is_float_text(s: Seq<char>) -> bool {
    let b = s.skip(sign_len(s));
    ci_word(b, "inf"@) || ci_word(b, "infinity"@) || ci_word(b, "nan"@) || is_number(b)
}

/// The first position from `lo` on, before `hi`, holding `c1` or `c2`; `hi`
/// when there is none.
fn scan_for(s: &str, lo: usize, hi: usize, c1: char, c2: char) -> (k: usize)
    requires
        lo <= hi <= s@.len(),
    ensures
        lo <= k <= hi,
        first_of(s@.subrange(lo as int, hi as int), c1, c2) == k - lo,
{
    let ghost b = s@.subrange(lo as int, hi as int);
    let mut k: usize = lo;
    while k < hi && s.get_char(k) != c1 && s.get_char(k) != c2
        invariant
            lo <= k <= hi <= s@.len(),
            b == s@.subrange(lo as int, hi as int),
            forall|j: int| 0 <= j < k - lo ==> b[j] != c1 && b[j] != c2,
        decreases hi - k,
    {
        k += 1;
    }
    if k < hi {
        assert(is_first_of(b, k - lo, c1, c2));
        assert(forall|q: int| is_first_of(b, q, c1, c2) ==> q == k - lo);
    } else {
        assert(forall|q: int| !is_first_of(b, q, c1, c2));
    }
    k
}

/// Whether every character from `lo` to `hi` is a digit.
fn digits_in(s: &str, lo: usize, hi: usize) -> (r: bool)
    requires
        lo <= hi <= s@.len(),
    ensures
        r == all_digits(s@.subrange(lo as int, hi as int)),
{
    let ghost b = s@.subrange(lo as int, hi as int);
    let mut k: usize = lo;
    while k < hi
        invariant
            lo <= k <= hi <= s@.len(),
            b == s@.subrange(lo as int, hi as int),
            forall|j: int| 0 <= j < k - lo ==> is_digit(#[trigger] b[j]),
        decreases hi - k,
    {
        let c = s.get_char(k);
        if !(0x30 <= (c as u32) && (c as u32) <= 0x39) {
            assert(!is_digit(b[k - lo]));
            return false;
        }
        k += 1;
    }
    true
}

/// Whether the characters from `lo` to `hi` form a mantissa.
fn mantissa_in(s: &str, lo: usize, hi: usize) -> (r: bool)
    requires
        lo <= hi <= s@.len(),
    ensures
        r == is_mantissa(s@.subrange(lo as int, hi as int)),
{
    let ghost m = s@.subrange(lo as int, hi as int);
    let k = scan_for(s, lo, hi, '.', '.');
    assert(m.take(k - lo) =~= s@.subrange(lo as int, k as int));
    if k < hi {
        assert(m.skip(k - lo + 1) =~= s@.subrange(k + 1, hi as int));
        digits_in(s, lo, k) && digits_in(s, k + 1, hi) && (k - lo) + (hi - k - 1) > 0
    } else {
        assert(all_digits(Seq::<char>::empty()));
        digits_in(s, lo, k) && k - lo > 0
    }
}

/// Whether the characters from `lo` to `hi` form an exponent.
fn exponent_in(s: &str, lo: usize, hi: usize) -> (r: bool)
    requires
        lo <= hi <= s@.len(),
    ensures
        r == is_exponent(s@.subrange(lo as int, hi as int)),
{
    let ghost x = s@.subrange(lo as int, hi as int);
    let start: usize = if lo < hi && (s.get_char(lo) == '+' || s.get_char(lo) == '-') {
        lo + 1
    } else {
        lo
    };
    assert(start - lo == sign_len(x));
    assert(x.skip(sign_len(x)) =~= s@.subrange(start as int, hi as int));
    start < hi && digits_in(s, start, hi)
}

/// Whether the characters from `lo` to `hi` form a number.
fn number_in(s: &str, lo: usize, hi: usize) -> (r: bool)
    requires
        lo <= hi <= s@.len(),
    ensures
        r == is_number(s@.subrange(lo as int, hi as int)),
{
    let ghost b = s@.subrange(lo as int, hi as int);
    let k = scan_for(s, lo, hi, 'e', 'E');
    assert(b.take(k - lo) =~= s@.subrange(lo as int, k as int));
    if k < hi {
        assert(b.skip(k - lo + 1) =~= s@.subrange(k + 1, hi as int));
        mantissa_in(s, lo, k) && exponent_in(s, k + 1, hi)
    } else {
        mantissa_in(s, lo, k)
    }
}

/// Whether the characters from `lo` to `hi` spell `w`, ignoring ASCII case.
fn word_in(s: &str, lo: usize, hi: usize, w: &str) -> (r: bool)
    requires
        lo <= hi <= s@.len(),
    ensures
        r == ci_word(s@.subrange(lo as int, hi as int), w@),
{
    let ghost b = s@.subrange(lo as int, hi as int);
    let n = w.unicode_len();
    if hi - lo != n {
        return false;
    }
    let mut i: usize = 0;
    while i < n
        invariant
            i <= n,
            n == w@.len(),
            hi - lo == n,
            lo <= hi <= s@.len(),
            b == s@.subrange(lo as int, hi as int),
            forall|j: int| 0 <= j < i ==> ci_eq(b[j], w@[j]),
        decreases n - i,
    {
        let c = s.get_char(lo + i);
        let d = w.get_char(i);
        let same = c == d || (0x61 <= (d as u32) && (d as u32) <= 0x7A && (c as u32) + 32 == (
        d as u32));
        if !same {
            assert(!ci_eq(b[i as int], w@[i as int]));
            return false;
        }
        i += 1;
    }
    true
}

/// Whether `s` is text that `str::parse::<f64>` accepts.
pub fn is_float(s: &str) -> (r: bool)
    ensures
        r == is_float_text(s@),
{
    let n = s.unicode_len();
    let lo: usize = if n > 0 && (s.get_char(0) == '+' || s.get_char(0) == '-') {
        1
    } else {
        0
    };
    assert(lo == sign_len(s@));
    assert(s@.skip(lo as int) =~= s@.subrange(lo as int, n as int));
    word_in(s, lo, n, "inf") || word_in(s, lo, n, "infinity") || word_in(s, lo, n, "nan")
        || number_in(s, lo, n)
}

} // verus!
