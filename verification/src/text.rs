//! Character-level text building: decimal numbers, padding, repetition,
//! substring search and ordering of names.
use vstd::prelude::*;

verus! {

broadcast use vstd::string::group_string_axioms;

/// The character of a decimal digit.
pub open spec fn digit_char(d: nat) -> char {
    (48 + d) as char
}

/// The decimal representation of `n`, without sign or leading zeros.
pub open spec fn decimal(n: nat) -> Seq<char>
    decreases n,
{
    if n < 10 {
        seq![digit_char(n)]
    } else {
        decimal(n / 10).push(digit_char(n % 10))
    }
}

/// `n` spaces.
pub open spec fn spaces(n: nat) -> Seq<char> {
    Seq::new(n, |i: int| ' ')
}

/// `s` aligned to the right in a field of `width` characters, as `{:>width}` does.
pub open spec fn pad_left(s: Seq<char>, width: nat) -> Seq<char> {
    if s.len() >= width {
        s
    } else {
        spaces((width - s.len()) as nat) + s
    }
}

/// `s` aligned to the left in a field of `width` characters, as `{:width}` does for text.
pub open spec fn pad_right(s: Seq<char>, width: nat) -> Seq<char> {
    if s.len() >= width {
        s
    } else {
        s + spaces((width - s.len()) as nat)
    }
}

/// `t` written `n` times.
pub open spec fn repeat(t: Seq<char>, n: nat) -> Seq<char>
    decreases n,
{
    if n == 0 {
        Seq::empty()
    } else {
        repeat(t, (n - 1) as nat) + t
    }
}

/// `needle` occurs as a contiguous part of `hay`.
pub open spec fn occurs_in(needle: Seq<char>, hay: Seq<char>) -> bool {
    exists|i: int|
        0 <= i && i + needle.len() <= hay.len() && #[trigger] hay.subrange(i, i + needle.len())
            == needle
}

/// Lexicographic order of character sequences by code point, the order of `str`.
pub open spec fn chars_lt(a: Seq<char>, b: Seq<char>) -> bool
    decreases a.len(),
{
    if a.len() == 0 {
        b.len() > 0
    } else if b.len() == 0 {
        false
    } else if (a[0] as int) < (b[0] as int) {
        true
    } else if a[0] == b[0] {
        chars_lt(a.drop_first(), b.drop_first())
    } else {
        false
    }
}

pub proof fn lemma_chars_lt_irreflexive(a: Seq<char>)
    ensures
        !chars_lt(a, a),
    decreases a.len(),
{
    if a.len() > 0 {
        lemma_chars_lt_irreflexive(a.drop_first());
    }
}

pub proof fn lemma_chars_lt_transitive(a: Seq<char>, b: Seq<char>, c: Seq<char>)
    requires
        chars_lt(a, b),
        chars_lt(b, c),
    ensures
        chars_lt(a, c),
    decreases a.len(),
{
    if a.len() > 0 && b.len() > 0 && c.len() > 0 {
        if a[0] == b[0] && b[0] == c[0] {
            lemma_chars_lt_transitive(a.drop_first(), b.drop_first(), c.drop_first());
        }
    }
}

pub proof fn lemma_chars_lt_total(a: Seq<char>, b: Seq<char>)
    ensures
        chars_lt(a, b) || chars_lt(b, a) || a == b,
    decreases a.len(),
{
    if a.len() > 0 && b.len() > 0 {
        if a[0] == b[0] {
            lemma_chars_lt_total(a.drop_first(), b.drop_first());
            if a.drop_first() == b.drop_first() {
                assert(a =~= seq![a[0]] + a.drop_first());
                assert(b =~= seq![b[0]] + b.drop_first());
            }
        } else {
            assert((a[0] as int) != (b[0] as int));
        }
    } else if a.len() == 0 && b.len() == 0 {
        assert(a =~= b);
    }
}

/// Appends one character (`String::push`).
#[verifier::external_body]
pub(crate) fn push_char(s: &mut String, c: char)
    ensures
        final(s)@ == old(s)@.push(c),
{
    s.push(c);
}

/// Removes the last character (`String::pop`).
#[verifier::external_body]
pub(crate) fn pop_char(s: &mut String) -> (r: Option<char>)
    ensures
        old(s)@.len() == 0 ==> r is None && final(s)@ == old(s)@,
        old(s)@.len() > 0 ==> r == Some(old(s)@.last()) && final(s)@ == old(s)@.drop_last(),
{
    s.pop()
}

/// What `str::to_lowercase` returns for a text.
pub uninterp spec fn lowercase(s: Seq<char>) -> Seq<char>;

/// Calls `str::to_lowercase`, whose Unicode case mapping is not restated
/// here; the result is named by `lowercase`.
#[verifier::external_body]
pub(crate) fn to_lowercase(s: &str) -> (r: String)
    ensures
        r@ == lowercase(s@),
{
    s.to_lowercase()
}

/// Appends a text.
pub fn push_str(s: &mut String, t: &str)
    ensures
        final(s)@ == old(s)@ + t@,
{
    s.append(t);
}

/// The characters of a text.
pub fn chars_of(s: &str) -> (v: Vec<char>)
    ensures
        v@ == s@,
{
    let mut v: Vec<char> = Vec::new();
    for c in it: s.chars()
        invariant
            v@ == it.seq().take(it.index() as int),
    {
        v.push(c);
    }
    v
}

/// The number of characters of a text.
pub fn char_count(s: &str) -> (n: usize)
    ensures
        n == s@.len(),
{
    let v = chars_of(s);
    v.len()
}

pub fn digit(d: u64) -> (c: char)
    requires
        d < 10,
    ensures
        c == digit_char(d as nat),
{
    let b: u8 = 48u8 + (d as u8);
    b as char
}

/// Appends the decimal representation of `n`.
pub fn push_decimal(s: &mut String, n: u64)
    ensures
        final(s)@ == old(s)@ + decimal(n as nat),
    decreases n,
{
    if n >= 10 {
        push_decimal(s, n / 10);
        let c = digit(n % 10);
        push_char(s, c);
        assert(decimal(n as nat) == decimal((n / 10) as nat).push(digit_char((n % 10) as nat)));
        assert(final(s)@ =~= old(s)@ + decimal(n as nat));
    } else {
        let c = digit(n);
        push_char(s, c);
        assert(final(s)@ =~= old(s)@ + decimal(n as nat));
    }
}

/// The decimal representation of `n`.
pub fn decimal_string(n: u64) -> (r: String)
    ensures
        r@ == decimal(n as nat),
{
    let mut s = String::new();
    push_decimal(&mut s, n);
    assert(s@ =~= decimal(n as nat));
    s
}

/// Appends `n` spaces.
pub fn push_spaces(s: &mut String, n: usize)
    ensures
        final(s)@ == old(s)@ + spaces(n as nat),
{
    let mut k: usize = 0;
    while k < n
        invariant
            k <= n,
            s@ == old(s)@ + spaces(k as nat),
        decreases n - k,
    {
        push_char(s, ' ');
        k = k + 1;
        assert(s@ =~= old(s)@ + spaces(k as nat));
    }
}

/// Appends `t` aligned to the right in a field of `width` characters.
pub fn push_padded_left(s: &mut String, t: &str, width: usize)
    ensures
        final(s)@ == old(s)@ + pad_left(t@, width as nat),
{
    let len = char_count(t);
    if len < width {
        push_spaces(s, width - len);
    }
    push_str(s, t);
    assert(final(s)@ =~= old(s)@ + pad_left(t@, width as nat));
}

/// Appends `t` aligned to the left in a field of `width` characters.
pub fn push_padded_right(s: &mut String, t: &str, width: usize)
    ensures
        final(s)@ == old(s)@ + pad_right(t@, width as nat),
{
    let len = char_count(t);
    push_str(s, t);
    if len < width {
        push_spaces(s, width - len);
    }
    assert(final(s)@ =~= old(s)@ + pad_right(t@, width as nat));
}

/// Appends `t` written `n` times.
pub fn push_repeat(s: &mut String, t: &str, n: u64)
    ensures
        final(s)@ == old(s)@ + repeat(t@, n as nat),
{
    let mut k: u64 = 0;
    while k < n
        invariant
            k <= n,
            s@ == old(s)@ + repeat(t@, k as nat),
        decreases n - k,
    {
        push_str(s, t);
        k = k + 1;
        assert(s@ =~= old(s)@ + repeat(t@, k as nat));
    }
}

/// Whether `needle` occurs in `hay`, as `str::contains` answers.
pub fn contains_chars(hay: &Vec<char>, needle: &Vec<char>) -> (r: bool)
    ensures
        r == occurs_in(needle@, hay@),
{
    let n = needle.len();
    let h = hay.len();
    if n > h {
        assert forall|i: int| 0 <= i && i + n <= h implies #[trigger] hay@.subrange(
            i,
            i + n,
        ) != needle@ by {}
        return false;
    }
    let mut i: usize = 0;
    while i <= h - n
        invariant
            n == needle@.len(),
            h == hay@.len(),
            n <= h,
            i <= h - n + 1,
            forall|k: int| 0 <= k < i ==> #[trigger] hay@.subrange(k, k + n) != needle@,
        decreases h - i,
    {
        let mut j: usize = 0;
        let mut same = true;
        while j < n
            invariant
                n == needle@.len(),
                h == hay@.len(),
                i + n <= h,
                j <= n,
                same == (forall|m: int| 0 <= m < j ==> hay@[i + m] == needle@[m]),
            decreases n - j,
        {
            if hay[i + j] != needle[j] {
                same = false;
            }
            j = j + 1;
        }
        if same {
            assert(hay@.subrange(i as int, i + n) =~= needle@);
            return true;
        }
        assert(hay@.subrange(i as int, i + n) != needle@) by {
            let m = choose|m: int| 0 <= m < n && hay@[i + m] != needle@[m];
            assert(hay@.subrange(i as int, i + n)[m] == hay@[i + m]);
        }
        i = i + 1;
    }
    assert forall|k: int| 0 <= k && k + n <= h implies #[trigger] hay@.subrange(k, k + n)
        != needle@ by {
        assert(k < i);
    }
    false
}

/// Whether `a` comes strictly before `b` in the order of `str`.
pub fn chars_less(a: &Vec<char>, b: &Vec<char>) -> (r: bool)
    ensures
        r == chars_lt(a@, b@),
{
    let mut i: usize = 0;
    assert(a@.subrange(0, a@.len() as int) =~= a@);
    assert(b@.subrange(0, b@.len() as int) =~= b@);
    while i < a.len() && i < b.len() && a[i] == b[i]
        invariant
            i <= a@.len(),
            i <= b@.len(),
            a@.subrange(0, i as int) == b@.subrange(0, i as int),
            chars_lt(a@, b@) == chars_lt(a@.subrange(i as int, a@.len() as int), b@.subrange(i as int, b@.len() as int)),
        decreases a@.len() - i,
    {
        assert(a@.subrange(i as int, a@.len() as int).drop_first() =~= a@.subrange(i + 1, a@.len() as int));
        assert(b@.subrange(i as int, b@.len() as int).drop_first() =~= b@.subrange(i + 1, b@.len() as int));
        assert(a@.subrange(0, i + 1) =~= a@.subrange(0, i as int).push(a@[i as int]));
        assert(b@.subrange(0, i + 1) =~= b@.subrange(0, i as int).push(b@[i as int]));
        i = i + 1;
    }
    let ghost ta = a@.subrange(i as int, a@.len() as int);
    let ghost tb = b@.subrange(i as int, b@.len() as int);
    if i == a.len() {
        i < b.len()
    } else if i == b.len() {
        false
    } else {
        assert(ta[0] == a@[i as int]);
        assert(tb[0] == b@[i as int]);
        a[i] < b[i]
    }
}

/// What `humansize::format_size` with the `BINARY` options returns for a
/// number of bytes.
pub uninterp spec fn binary_size(bytes: u64) -> Seq<char>;

/// Calls `humansize::format_size(bytes, humansize::BINARY)`. The result is
/// named by `binary_size`; below 1024 bytes the crate divides nothing and
/// prints the whole number of bytes with no decimals and the unit `B`.
#[verifier::external_body]
pub(crate) fn format_binary_size(bytes: u64) -> (r: String)
    ensures
        r@ == binary_size(bytes),
        bytes < 1024 ==> r@ == decimal(bytes as nat) + " B"@,
{
    humansize::format_size(bytes, humansize::BINARY)
}

} // verus!
