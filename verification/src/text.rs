//! Character-level text helpers: ASCII case folding, Unicode white-space
//! trimming, splitting on a separator, decimal formatting and decimal parsing.
//! Every routine is specified over the character sequence (`@`) of its input.

use vstd::prelude::*;

verus! {

// ---------------------------------------------------------------------------
// Character classes
// ---------------------------------------------------------------------------

/// `c` is one of the ASCII digits `0`..`9`.
pub open spec fn is_digit(c: char) -> bool {
    '0' <= c && c <= '9'
}

/// Numeric value of an ASCII digit.
pub open spec fn digit_value(c: char) -> nat {
    (c as int - '0' as int) as nat
}

/// The ASCII digit character for `d < 10`.
pub open spec fn digit_char(d: nat) -> char {
    (d + 48) as char
}

/// ASCII lower-casing of one character: `A`..`Z` map to `a`..`z`, all else is kept.
pub open spec fn ascii_lower(c: char) -> char {
    if 'A' <= c && c <= 'Z' {
        (c as int + 32) as char
    } else {
        c
    }
}

/// ASCII lower-casing of a whole sequence.
pub open spec fn lower_seq(s: Seq<char>) -> Seq<char> {
    Seq::new(s.len(), |i: int| ascii_lower(s[i]))
}

/// Two sequences are equal once both are ASCII lower-cased.
pub open spec fn eq_ignore_case_seq(a: Seq<char>, b: Seq<char>) -> bool {
    lower_seq(a) == lower_seq(b)
}

/// Unicode `White_Space` code points (the set `char::is_whitespace` tests).
pub open spec fn is_white_space(c: char) -> bool {
    let u = c as u32;
    ||| (0x9 <= u && u <= 0xD)
    ||| u == 0x20
    ||| u == 0x85
    ||| u == 0xA0
    ||| u == 0x1680
    ||| (0x2000 <= u && u <= 0x200A)
    ||| u == 0x2028
    ||| u == 0x2029
    ||| u == 0x202F
    ||| u == 0x205F
    ||| u == 0x3000
}

// ---------------------------------------------------------------------------
// Trimming and splitting
// ---------------------------------------------------------------------------

/// `s` without its leading white space.
pub open spec fn trim_start_seq(s: Seq<char>) -> Seq<char>
    decreases s.len(),
{
    if s.len() > 0 && is_white_space(s[0]) {
        trim_start_seq(s.drop_first())
    } else {
        s
    }
}

/// `s` without its trailing white space.
pub open spec fn trim_end_seq(s: Seq<char>) -> Seq<char>
    decreases s.len(),
{
    if s.len() > 0 && is_white_space(s.last()) {
        trim_end_seq(s.drop_last())
    } else {
        s
    }
}

/// `s` without leading and trailing white space.
pub open spec fn trim_seq(s: Seq<char>) -> Seq<char> {
    trim_end_seq(trim_start_seq(s))
}

/// The pieces of `s` between occurrences of `sep`, in order; an empty input
/// gives one empty piece, and adjacent separators give empty pieces.
pub open spec fn split_seq(s: Seq<char>, sep: char) -> Seq<Seq<char>>
    decreases s.len(),
{
    if s.len() == 0 {
        seq![Seq::<char>::empty()]
    } else {
        let prev = split_seq(s.drop_last(), sep);
        if s.last() == sep {
            prev.push(Seq::<char>::empty())
        } else {
            prev.update(prev.len() - 1, prev.last().push(s.last()))
        }
    }
}

// ---------------------------------------------------------------------------
// Decimal formatting and parsing
// ---------------------------------------------------------------------------

/// Shortest decimal representation of `n`.
pub open spec fn decimal(n: nat) -> Seq<char>
    decreases n,
{
    if n < 10 {
        seq![digit_char(n)]
    } else {
        decimal(n / 10).push(digit_char(n % 10))
    }
}

/// `s` left-padded with `fill` up to `width` characters (unchanged when longer).
pub open spec fn pad_left(s: Seq<char>, width: nat, fill: char) -> Seq<char> {
    if s.len() >= width {
        s
    } else {
        Seq::new((width - s.len()) as nat, |i: int| fill) + s
    }
}

/// Decimal representation of `n`, zero-padded to at least `width` characters
/// (the `{:0width}` format of an unsigned integer).
pub open spec fn decimal_padded(n: nat, width: nat) -> Seq<char> {
    pad_left(decimal(n), width, '0')
}

/// The `{:0width}` format of a signed integer: a minus sign, when present,
/// counts toward the width and the zeros follow it.
pub open spec fn signed_decimal_padded(v: int, width: nat) -> Seq<char> {
    if v < 0 {
        seq!['-'] + decimal_padded((-v) as nat, if width > 0 { (width - 1) as nat } else { 0 })
    } else {
        decimal_padded(v as nat, width)
    }
}

/// Every character of `s` is an ASCII digit.
pub open spec fn all_digits(s: Seq<char>) -> bool {
    forall|i: int| 0 <= i < s.len() ==> is_digit(#[trigger] s[i])
}

/// Value of a digit string read in base ten.
pub open spec fn digits_value(s: Seq<char>) -> nat
    decreases s.len(),
{
    if s.len() == 0 {
        0
    } else {
        digits_value(s.drop_last()) * 10 + digit_value(s.last())
    }
}

/// `u32::from_str`: an optional `+`, then one or more digits whose value fits.
pub open spec fn parse_u32_seq(s: Seq<char>) -> Option<u32> {
    let body = if s.len() > 0 && s[0] == '+' { s.drop_first() } else { s };
    if body.len() > 0 && all_digits(body) && digits_value(body) <= u32::MAX {
        Some(digits_value(body) as u32)
    } else {
        None
    }
}

/// `i32::from_str`: an optional `+` or `-`, then one or more digits whose
/// signed value fits.
pub open spec fn parse_i32_seq(s: Seq<char>) -> Option<i32> {
    let neg = s.len() > 0 && s[0] == '-';
    let body = if s.len() > 0 && (s[0] == '+' || s[0] == '-') { s.drop_first() } else { s };
    let v: int = if neg { -(digits_value(body) as int) } else { digits_value(body) as int };
    if body.len() > 0 && all_digits(body) && i32::MIN <= v && v <= i32::MAX {
        Some(v as i32)
    } else {
        None
    }
}

// ---------------------------------------------------------------------------
// Conversions between `str`/`String` and character vectors
// ---------------------------------------------------------------------------

/// `String::push`.
#[verifier::external_body]
pub(crate) fn push_char(s: &mut String, c: char)
    ensures
        final(s)@ == old(s)@.push(c),
{
    s.push(c);
}

/// The characters of `s`, in order.
pub fn chars_of(s: &str) -> (v: Vec<char>)
    ensures
        v@ == s@,
{
    let n = s.unicode_len();
    let mut v: Vec<char> = Vec::new();
    let mut i: usize = 0;
    while i < n
        invariant
            n == s@.len(),
            i <= n,
            v@ == s@.subrange(0, i as int),
        decreases n - i,
    {
        v.push(s.get_char(i));
        i = i + 1;
    }
    v
}

/// Appends the characters `cs` to `out`.
pub(crate) fn push_chars(out: &mut String, cs: &[char])
    ensures
        final(out)@ == old(out)@ + cs@,
{
    let mut i: usize = 0;
    while i < cs.len()
        invariant
            i <= cs@.len(),
            out@ == old(out)@ + cs@.subrange(0, i as int),
        decreases cs.len() - i,
    {
        push_char(out, cs[i]);
        i = i + 1;
    }
}

/// Appends the characters of `t` to `out`.
pub(crate) fn push_str(out: &mut String, t: &str)
    ensures
        final(out)@ == old(out)@ + t@,
{
    let cs = chars_of(t);
    push_chars(out, cs.as_slice());
}

/// A `String` holding exactly the characters `cs`.
pub fn string_from_chars(cs: &[char]) -> (s: String)
    ensures
        s@ == cs@,
{
    let mut s = String::new();
    push_chars(&mut s, cs);
    s
}


// ---------------------------------------------------------------------------
// Case folding and comparison
// ---------------------------------------------------------------------------

/// ASCII lower-casing of one character.
pub fn lower_char(c: char) -> (r: char)
    ensures
        r == ascii_lower(c),
{
    if 'A' <= c && c <= 'Z' {
        ((c as u8) + 32) as char
    } else {
        c
    }
}

/// ASCII lower-casing of a character slice.
pub fn lower_chars(cs: &[char]) -> (v: Vec<char>)
    ensures
        v@ == lower_seq(cs@),
{
    let mut v: Vec<char> = Vec::new();
    let mut i: usize = 0;
    while i < cs.len()
        invariant
            i <= cs@.len(),
            v@ =~= lower_seq(cs@.subrange(0, i as int)),
        decreases cs.len() - i,
    {
        v.push(lower_char(cs[i]));
        i = i + 1;
        assert(v@ =~= lower_seq(cs@.subrange(0, i as int)));
    }
    assert(cs@.subrange(0, cs@.len() as int) =~= cs@);
    v
}

/// `str::to_ascii_lowercase`.
pub fn to_ascii_lowercase(s: &str) -> (r: String)
    ensures
        r@ == lower_seq(s@),
{
    let cs = chars_of(s);
    let low = lower_chars(cs.as_slice());
    string_from_chars(low.as_slice())
}

/// Equality of two character slices.
pub fn chars_eq(a: &[char], b: &[char]) -> (r: bool)
    ensures
        r == (a@ == b@),
{
    if a.len() != b.len() {
        return false;
    }
    let mut i: usize = 0;
    while i < a.len()
        invariant
            a@.len() == b@.len(),
            i <= a@.len(),
            forall|j: int| 0 <= j < i ==> a@[j] == b@[j],
        decreases a.len() - i,
    {
        if a[i] != b[i] {
            return false;
        }
        i = i + 1;
    }
    assert(a@ =~= b@);
    true
}

/// Equality of two string slices by their characters.
pub fn str_eq(a: &str, b: &str) -> (r: bool)
    ensures
        r == (a@ == b@),
{
    let ca = chars_of(a);
    let cb = chars_of(b);
    chars_eq(ca.as_slice(), cb.as_slice())
}

/// `str::eq_ignore_ascii_case`.
pub fn eq_ignore_ascii_case(a: &str, b: &str) -> (r: bool)
    ensures
        r == eq_ignore_case_seq(a@, b@),
{
    let la = lower_chars(chars_of(a).as_slice());
    let lb = lower_chars(chars_of(b).as_slice());
    chars_eq(la.as_slice(), lb.as_slice())
}

// ---------------------------------------------------------------------------
// Trimming and splitting
// ---------------------------------------------------------------------------

/// `char::is_whitespace`.
pub fn is_whitespace(c: char) -> (r: bool)
    ensures
        r == is_white_space(c),
{
    let u = c as u32;
    (0x9 <= u && u <= 0xD) || u == 0x20 || u == 0x85 || u == 0xA0 || u == 0x1680 || (0x2000
        <= u && u <= 0x200A) || u == 0x2028 || u == 0x2029 || u == 0x202F || u == 0x205F || u
        == 0x3000
}

proof fn lemma_trim_start_skip(s: Seq<char>, i: int)
    requires
        0 <= i <= s.len(),
        forall|j: int| 0 <= j < i ==> is_white_space(#[trigger] s[j]),
    ensures
        trim_start_seq(s) == trim_start_seq(s.subrange(i, s.len() as int)),
    decreases i,
{
    if i > 0 {
        assert(s.drop_first() =~= s.subrange(1, s.len() as int));
        lemma_trim_start_skip(s.drop_first(), i - 1);
        assert(s.drop_first().subrange(i - 1, s.drop_first().len() as int) =~= s.subrange(
            i,
            s.len() as int,
        ));
    } else {
        assert(s.subrange(0, s.len() as int) =~= s);
    }
}

proof fn lemma_trim_end_skip(s: Seq<char>, k: int)
    requires
        0 <= k <= s.len(),
        forall|j: int| k <= j < s.len() ==> is_white_space(#[trigger] s[j]),
    ensures
        trim_end_seq(s) == trim_end_seq(s.subrange(0, k)),
    decreases s.len() - k,
{
    if k < s.len() {
        assert(s.drop_last() =~= s.subrange(0, s.len() - 1));
        lemma_trim_end_skip(s.drop_last(), k);
        assert(s.drop_last().subrange(0, k) =~= s.subrange(0, k));
    } else {
        assert(s.subrange(0, k) =~= s);
    }
}

/// The trimmed characters of `cs` (leading and trailing white space removed).
pub fn trim_chars(cs: &[char]) -> (v: Vec<char>)
    ensures
        v@ == trim_seq(cs@),
{
    let n = cs.len();
    let mut i: usize = 0;
    while i < n && is_whitespace(cs[i])
        invariant
            n == cs@.len(),
            i <= n,
            forall|j: int| 0 <= j < i ==> is_white_space(#[trigger] cs@[j]),
        decreases n - i,
    {
        i = i + 1;
    }
    proof {
        lemma_trim_start_skip(cs@, i as int);
    }
    let ghost rest = cs@.subrange(i as int, n as int);
    assert(trim_start_seq(rest) == rest);
    let mut k: usize = n;
    while k > i && is_whitespace(cs[k - 1])
        invariant
            n == cs@.len(),
            i <= k <= n,
            rest == cs@.subrange(i as int, n as int),
            forall|j: int| k <= j < n ==> is_white_space(#[trigger] cs@[j]),
        decreases k,
    {
        k = k - 1;
    }
    proof {
        assert forall|j: int| (k - i) <= j < rest.len() implies is_white_space(#[trigger] rest[j]) by {
            assert(rest[j] == cs@[j + i]);
        }
        lemma_trim_end_skip(rest, (k - i) as int);
        assert(rest.subrange(0, (k - i) as int) =~= cs@.subrange(i as int, k as int));
    }
    let mut v: Vec<char> = Vec::new();
    let mut p: usize = i;
    while p < k
        invariant
            i <= p <= k <= n,
            n == cs@.len(),
            v@ == cs@.subrange(i as int, p as int),
        decreases k - p,
    {
        v.push(cs[p]);
        p = p + 1;
        assert(v@ =~= cs@.subrange(i as int, p as int));
    }
    proof {
        let t = cs@.subrange(i as int, k as int);
        if t.len() > 0 {
            assert(!is_white_space(t.last()));
            assert(trim_end_seq(t) == t);
        }
    }
    v
}

/// `str::trim`, as an owned string.
pub fn trim(s: &str) -> (r: String)
    ensures
        r@ == trim_seq(s@),
{
    let cs = chars_of(s);
    let t = trim_chars(cs.as_slice());
    string_from_chars(t.as_slice())
}

/// `str::split(sep)` into owned character vectors.
pub fn split_chars(cs: &[char], sep: char) -> (pieces: Vec<Vec<char>>)
    ensures
        pieces@.len() == split_seq(cs@, sep).len(),
        forall|j: int| 0 <= j < pieces@.len() ==> #[trigger] pieces@[j]@ == split_seq(cs@, sep)[j],
{
    let mut pieces: Vec<Vec<char>> = Vec::new();
    let mut cur: Vec<char> = Vec::new();
    let mut i: usize = 0;
    proof {
        assert(cs@.subrange(0, 0) =~= Seq::<char>::empty());
    }
    while i < cs.len()
        invariant
            i <= cs@.len(),
            pieces@.len() + 1 == split_seq(cs@.subrange(0, i as int), sep).len(),
            forall|j: int| 0 <= j < pieces@.len() ==> #[trigger] pieces@[j]@ == split_seq(cs@.subrange(0, i as int), sep)[j],
            cur@ == split_seq(cs@.subrange(0, i as int), sep).last(),
        decreases cs.len() - i,
    {
        let ghost before = cs@.subrange(0, i as int);
        let c = cs[i];
        i = i + 1;
        let ghost after = cs@.subrange(0, i as int);
        assert(after.drop_last() =~= before);
        assert(after.last() == c);
        if c == sep {
            let done = cur;
            pieces.push(done);
            cur = Vec::new();
        } else {
            cur.push(c);
        }
    }
    pieces.push(cur);
    assert(cs@.subrange(0, cs@.len() as int) =~= cs@);
    pieces
}

/// `str::split(sep)` collected into owned strings.
pub fn split(s: &str, sep: char) -> (pieces: Vec<String>)
    ensures
        pieces@.len() == split_seq(s@, sep).len(),
        forall|j: int| 0 <= j < pieces@.len() ==> #[trigger] pieces@[j]@ == split_seq(s@, sep)[j],
{
    let cs = chars_of(s);
    let parts = split_chars(cs.as_slice(), sep);
    let mut out: Vec<String> = Vec::new();
    let mut j: usize = 0;
    while j < parts.len()
        invariant
            j <= parts@.len(),
            parts@.len() == split_seq(s@, sep).len(),
            forall|k: int| 0 <= k < parts@.len() ==> #[trigger] parts@[k]@ == split_seq(s@, sep)[k],
            out@.len() == j,
            forall|k: int| 0 <= k < j ==> #[trigger] out@[k]@ == split_seq(s@, sep)[k],
        decreases parts.len() - j,
    {
        out.push(string_from_chars(parts[j].as_slice()));
        j = j + 1;
    }
    out
}


// ---------------------------------------------------------------------------
// Decimal formatting
// ---------------------------------------------------------------------------

/// Decimal digits of `n`, most significant first.
pub fn decimal_chars(n: u64) -> (v: Vec<char>)
    ensures
        v@ == decimal(n as nat),
        1 <= v@.len(),
    decreases n,
{
    if n < 10 {
        let c = ((n as u8) + 48) as char;
        let mut v: Vec<char> = Vec::new();
        v.push(c);
        v
    } else {
        let mut v = decimal_chars(n / 10);
        v.push((((n % 10) as u8) + 48) as char);
        v
    }
}

/// Appends `n` in decimal, zero-padded to at least `width` characters.
pub fn push_decimal_padded(out: &mut String, n: u64, width: usize)
    ensures
        final(out)@ == old(out)@ + decimal_padded(n as nat, width as nat),
{
    let digits = decimal_chars(n);
    let mut k: usize = digits.len();
    let ghost start = out@;
    while k < width
        invariant
            digits@.len() <= k,
            k <= width || k == digits@.len(),
            out@ == start + Seq::new((k - digits@.len()) as nat, |i: int| '0'),
        decreases width - k,
    {
        push_char(out, '0');
        k = k + 1;
        assert(out@ =~= start + Seq::new((k - digits@.len()) as nat, |i: int| '0'));
    }
    let ghost zeros = out@;
    push_chars(out, digits.as_slice());
    proof {
        if digits@.len() >= width {
            assert(k == digits@.len());
            assert(zeros =~= start);
        }
        assert(out@ =~= start + decimal_padded(n as nat, width as nat));
    }
}

/// Appends `v` in decimal with the `{:0width}` format of a signed integer.
pub fn push_signed_decimal_padded(out: &mut String, v: i64, width: usize)
    ensures
        final(out)@ == old(out)@ + signed_decimal_padded(v as int, width as nat),
{
    if v < 0 {
        push_char(out, '-');
        let mag: u64 = if v == i64::MIN { 0x8000_0000_0000_0000u64 } else { (-v) as u64 };
        let w = if width > 0 { width - 1 } else { 0 };
        let ghost mid = out@;
        push_decimal_padded(out, mag, w);
        assert(out@ =~= old(out)@ + signed_decimal_padded(v as int, width as nat));
    } else {
        push_decimal_padded(out, v as u64, width);
    }
}

// ---------------------------------------------------------------------------
// Decimal parsing
// ---------------------------------------------------------------------------

proof fn lemma_digits_value_prefix(s: Seq<char>, i: int)
    requires
        0 <= i < s.len(),
    ensures
        digits_value(s.subrange(0, i + 1)) == digits_value(s.subrange(0, i)) * 10 + digit_value(
            s[i],
        ),
{
    assert(s.subrange(0, i + 1).drop_last() =~= s.subrange(0, i));
}

proof fn lemma_digits_value_monotone(s: Seq<char>, i: int)
    requires
        0 <= i <= s.len(),
    ensures
        digits_value(s.subrange(0, i)) <= digits_value(s),
    decreases s.len() - i,
{
    if i < s.len() {
        lemma_digits_value_prefix(s, i);
        lemma_digits_value_monotone(s, i + 1);
    } else {
        assert(s.subrange(0, i) =~= s);
    }
}

/// Value of the digit string `cs[start..end]`, or `None` when it is empty,
/// holds a non-digit, or exceeds `limit`.
fn parse_digits(cs: &[char], start: usize, end: usize, limit: u64) -> (r: Option<u64>)
    requires
        start <= end <= cs@.len(),
        limit >= 9,
    ensures
        ({
            let body = cs@.subrange(start as int, end as int);
            match r {
                Some(v) => body.len() > 0 && all_digits(body) && digits_value(body) <= limit
                    && v == digits_value(body),
                None => !(body.len() > 0 && all_digits(body) && digits_value(body) <= limit),
            }
        }),
{
    let ghost body = cs@.subrange(start as int, end as int);
    if start >= end {
        return None;
    }
    let mut acc: u64 = 0;
    let mut i: usize = start;
    while i < end
        invariant
            start <= i <= end <= cs@.len(),
            body == cs@.subrange(start as int, end as int),
            all_digits(cs@.subrange(start as int, i as int)),
            acc == digits_value(cs@.subrange(start as int, i as int)),
            acc <= limit,
            limit >= 9,
        decreases end - i,
    {
        let c = cs[i];
        proof {
            assert(body[i - start] == c);
        }
        if !('0' <= c && c <= '9') {
            proof {
                assert(!is_digit(body[i - start]));
            }
            return None;
        }
        let d = ((c as u8) - 48) as u64;
        proof {
            lemma_digits_value_prefix(body, (i - start) as int);
            assert(body.subrange(0, (i - start) as int) =~= cs@.subrange(start as int, i as int));
            assert(body.subrange(0, (i - start + 1) as int) =~= cs@.subrange(start as int, i + 1));
        }
        if acc > (limit - d) / 10 {
            proof {
                let nv = digits_value(cs@.subrange(start as int, i + 1));
                assert(nv == acc * 10 + d);
                assert(nv > limit) by (nonlinear_arith)
                    requires
                        nv == acc * 10 + d,
                        acc > (limit - d) / 10,
                        d <= 9,
                        d <= limit,
                ;
                lemma_digits_value_monotone(body, (i - start + 1) as int);
            }
            return None;
        }
        acc = acc * 10 + d;
        i = i + 1;
        proof {
            assert forall|j: int| 0 <= j < cs@.subrange(start as int, i as int).len() implies is_digit(
                #[trigger] cs@.subrange(start as int, i as int)[j],
            ) by {
                if j < i - 1 - start {
                    assert(cs@.subrange(start as int, i as int)[j] == cs@.subrange(
                        start as int,
                        (i - 1) as int,
                    )[j]);
                }
            }
        }
    }
    assert(cs@.subrange(start as int, i as int) =~= body);
    Some(acc)
}

/// `u32::from_str` applied to the characters `cs[from..to]`.
pub fn parse_u32_range(cs: &[char], from: usize, to: usize) -> (r: Option<u32>)
    requires
        from <= to <= cs@.len(),
    ensures
        r == parse_u32_seq(cs@.subrange(from as int, to as int)),
{
    let ghost t = cs@.subrange(from as int, to as int);
    let start: usize = if from < to && cs[from] == '+' { from + 1 } else { from };
    proof {
        if start == from + 1 {
            assert(cs@.subrange(start as int, to as int) =~= t.drop_first());
        } else {
            assert(cs@.subrange(start as int, to as int) =~= t);
        }
    }
    match parse_digits(cs, start, to, 0xFFFF_FFFF) {
        Some(v) => Some(v as u32),
        None => None,
    }
}

/// `i32::from_str` applied to the characters `cs[from..to]`.
pub fn parse_i32_range(cs: &[char], from: usize, to: usize) -> (r: Option<i32>)
    requires
        from <= to <= cs@.len(),
    ensures
        r == parse_i32_seq(cs@.subrange(from as int, to as int)),
{
    let ghost t = cs@.subrange(from as int, to as int);
    let neg = from < to && cs[from] == '-';
    let start: usize = if from < to && (cs[from] == '+' || cs[from] == '-') { from + 1 } else { from };
    proof {
        if start == from + 1 {
            assert(cs@.subrange(start as int, to as int) =~= t.drop_first());
        } else {
            assert(cs@.subrange(start as int, to as int) =~= t);
        }
    }
    let limit: u64 = if neg { 0x8000_0000 } else { 0x7FFF_FFFF };
    match parse_digits(cs, start, to, limit) {
        Some(v) => {
            if neg {
                Some((0 - (v as i64)) as i32)
            } else {
                Some(v as i32)
            }
        },
        None => None,
    }
}

/// `u32::from_str` over the characters of `s`.
pub fn parse_u32(s: &str) -> (r: Option<u32>)
    ensures
        r == parse_u32_seq(s@),
{
    let cs = chars_of(s);
    assert(cs@.subrange(0, cs@.len() as int) =~= s@);
    parse_u32_range(cs.as_slice(), 0, cs.len())
}

} // verus!
