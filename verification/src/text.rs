//! Facts about text that the rest of the library states its contracts with:
//! the order of names, and what the few `str` operations it calls return.
use vstd::prelude::*;
use vstd::utf8::*;
use vstd::string::StringSliceAdditionalSpecFns;

verus! {

/// Byte-wise lexicographic order, the order `str`'s `<` documents.
pub open spec fn lex_less(a: Seq<u8>, b: Seq<u8>) -> bool
    decreases a.len(),
{
    if a.len() == 0 {
        b.len() > 0
    } else if b.len() == 0 {
        false
    } else if a[0] != b[0] {
        a[0] < b[0]
    } else {
        lex_less(a.drop_first(), b.drop_first())
    }
}

/// The order in which names are sorted: by the bytes of their UTF-8 encoding.
pub open spec fn name_before(a: Seq<char>, b: Seq<char>) -> bool {
    lex_less(encode_utf8(a), encode_utf8(b))
}

pub proof fn lemma_lex_irreflexive(a: Seq<u8>)
    ensures
        !lex_less(a, a),
    decreases a.len(),
{
    if a.len() > 0 {
        lemma_lex_irreflexive(a.drop_first());
    }
}

pub proof fn lemma_lex_transitive(a: Seq<u8>, b: Seq<u8>, c: Seq<u8>)
    requires
        lex_less(a, b),
        lex_less(b, c),
    ensures
        lex_less(a, c),
    decreases a.len(),
{
    if a.len() > 0 && b.len() > 0 && c.len() > 0 && a[0] == b[0] && b[0] == c[0] {
        lemma_lex_transitive(a.drop_first(), b.drop_first(), c.drop_first());
    }
}

pub proof fn lemma_lex_total(a: Seq<u8>, b: Seq<u8>)
    requires
        a != b,
    ensures
        lex_less(a, b) || lex_less(b, a),
    decreases a.len(),
{
    if a.len() > 0 && b.len() > 0 && a[0] == b[0] {
        if a.drop_first() == b.drop_first() {
            assert(a =~= seq![a[0]] + a.drop_first());
            assert(b =~= seq![b[0]] + b.drop_first());
        }
        lemma_lex_total(a.drop_first(), b.drop_first());
    } else if a.len() == 0 && b.len() == 0 {
        assert(a =~= b);
    }
}

/// `name_before` is a strict total order on names.
pub proof fn lemma_name_order(a: Seq<char>, b: Seq<char>, c: Seq<char>)
    ensures
        !name_before(a, a),
        name_before(a, b) && name_before(b, c) ==> name_before(a, c),
        a != b ==> name_before(a, b) || name_before(b, a),
        name_before(a, b) ==> !name_before(b, a),
{
    lemma_lex_irreflexive(encode_utf8(a));
    if name_before(a, b) && name_before(b, c) {
        lemma_lex_transitive(encode_utf8(a), encode_utf8(b), encode_utf8(c));
    }
    if name_before(a, b) && name_before(b, a) {
        lemma_lex_transitive(encode_utf8(a), encode_utf8(b), encode_utf8(a));
    }
    if a != b {
        encode_utf8_decode_utf8(a);
        encode_utf8_decode_utf8(b);
        lemma_lex_total(encode_utf8(a), encode_utf8(b));
    }
}

/// Whether `a` sorts before `b`, by `str`'s `<`, which compares the bytes.
#[verifier::external_body]
pub(crate) fn name_less(a: &str, b: &str) -> (r: bool)
    ensures
        r == name_before(a@, b@),
{
    a < b
}

/// Whether `a` and `b` hold the same text, by `str`'s `==`.
#[verifier::external_body]
pub(crate) fn same_text(a: &str, b: &str) -> (r: bool)
    ensures
        r == (a@ == b@),
{
    a == b
}

/// Whether `c` has the Unicode `White_Space` property, which is what
/// `char::is_whitespace` reports: tab to carriage return, space, next line,
/// no-break space, ogham space mark, the spaces from en quad to hair space,
/// line and paragraph separator, narrow no-break space, medium mathematical
/// space, and ideographic space.
pub open spec fn white_space(c: char) -> bool {
    let u = c as u32;
    ||| 0x09 <= u <= 0x0d
    ||| u == 0x20
    ||| u == 0x85
    ||| u == 0xa0
    ||| u == 0x1680
    ||| 0x2000 <= u <= 0x200a
    ||| u == 0x2028
    ||| u == 0x2029
    ||| u == 0x202f
    ||| u == 0x205f
    ||| u == 0x3000
}

/// Every char of `s` is white space (an empty `s` is blank).
pub open spec fn blank(s: Seq<char>) -> bool {
    forall|k: int| 0 <= k < s.len() ==> white_space(#[trigger] s[k])
}

/// How many chars of white space `s` starts with.
pub open spec fn leading_white(s: Seq<char>) -> int
    decreases s.len(),
{
    if s.len() > 0 && white_space(s[0]) {
        1 + leading_white(s.drop_first())
    } else {
        0
    }
}

/// How many chars of white space `s` ends with.
pub open spec fn trailing_white(s: Seq<char>) -> int
    decreases s.len(),
{
    if s.len() > 0 && white_space(s.last()) {
        1 + trailing_white(s.drop_last())
    } else {
        0
    }
}

/// `s` without its leading and trailing white space.
pub open spec fn trimmed(s: Seq<char>) -> Seq<char> {
    let t = s.skip(leading_white(s));
    t.take(t.len() - trailing_white(t))
}

pub proof fn lemma_leading_white(s: Seq<char>)
    ensures
        0 <= leading_white(s) <= s.len(),
        forall|k: int| 0 <= k < leading_white(s) ==> white_space(#[trigger] s[k]),
        leading_white(s) < s.len() ==> !white_space(s[leading_white(s)]),
    decreases s.len(),
{
    if s.len() > 0 && white_space(s[0]) {
        lemma_leading_white(s.drop_first());
        assert forall|k: int| 0 <= k < leading_white(s) implies white_space(#[trigger] s[k]) by {
            if k > 0 {
                assert(s[k] == s.drop_first()[k - 1]);
            }
        }
    }
}

pub proof fn lemma_trailing_white(s: Seq<char>)
    ensures
        0 <= trailing_white(s) <= s.len(),
        trailing_white(s) < s.len() ==> !white_space(s[s.len() - 1 - trailing_white(s)]),
    decreases s.len(),
{
    if s.len() > 0 && white_space(s.last()) {
        lemma_trailing_white(s.drop_last());
    }
}

/// Trimming leaves nothing exactly when `s` is all white space.
pub proof fn lemma_trimmed_blank(s: Seq<char>)
    ensures
        trimmed(s).len() == 0 <==> blank(s),
{
    lemma_leading_white(s);
    let t = s.skip(leading_white(s));
    lemma_trailing_white(t);
    if leading_white(s) < s.len() {
        assert(!white_space(t[0]));
        assert(trailing_white(t) < t.len()) by {
            if trailing_white(t) == t.len() {
                assert(t.len() > 0);
                lemma_all_trailing(t);
            }
        }
        assert(!blank(s)) by {
            assert(!white_space(s[leading_white(s)]));
        }
    } else {
        assert(t.len() == 0);
    }
}

proof fn lemma_all_trailing(s: Seq<char>)
    requires
        trailing_white(s) == s.len(),
        s.len() > 0,
    ensures
        white_space(s[0]),
    decreases s.len(),
{
    if s.len() > 1 {
        lemma_all_trailing(s.drop_last());
    }
}

/// `str::trim`: `s` without its leading and trailing white space.
#[verifier::external_body]
pub(crate) fn trim(s: &str) -> (r: &str)
    ensures
        r@ == trimmed(s@),
        r@.len() > 0 ==> !white_space(r@[0]) && !white_space(r@.last()),
{
    s.trim()
}

/// Whether `s` holds nothing but white space.
pub fn is_blank(s: &str) -> (r: bool)
    ensures
        r == blank(s@),
{
    let t = trim(s);
    proof {
        lemma_trimmed_blank(s@);
    }
    t.is_empty()
}

/// `str::starts_with` with a text as the pattern.
#[verifier::external_body]
pub(crate) fn starts_with(s: &str, prefix: &str) -> (r: bool)
    ensures
        r == prefix@.is_prefix_of(s@),
{
    s.starts_with(prefix)
}

/// `str::contains` with a char as the pattern.
#[verifier::external_body]
pub(crate) fn has_char(s: &str, c: char) -> (r: bool)
    ensures
        r == s@.contains(c),
{
    s.contains(c)
}

/// How `{:?}` writes a text: quoted, with `char::escape_debug` escapes.
pub uninterp spec fn debug_text(s: Seq<char>) -> Seq<char>;

/// `format!("{s:?}")`.
#[verifier::external_body]
pub(crate) fn debug_quoted(s: &str) -> (r: String)
    ensures
        r@ == debug_text(s@),
{
    format!("{s:?}")
}

/// The decimal digit for `d`.
pub open spec fn digit(d: nat) -> char {
    (('0' as nat) + d) as char
}

/// `n` written in decimal, without leading zeros.
pub open spec fn decimal_text(n: nat) -> Seq<char>
    decreases n,
{
    if n < 10 {
        seq![digit(n)]
    } else {
        decimal_text(n / 10).push(digit(n % 10))
    }
}

/// `usize::to_string`: `n` written in decimal.
#[verifier::external_body]
pub(crate) fn decimal(n: usize) -> (r: String)
    ensures
        r@ == decimal_text(n as nat),
{
    n.to_string()
}

/// `n` written in decimal, with a `-` in front when it is negative.
pub open spec fn signed_text(n: int) -> Seq<char> {
    if n < 0 {
        "-"@ + decimal_text((-n) as nat)
    } else {
        decimal_text(n as nat)
    }
}

/// `u64::to_string`: `n` written in decimal.
#[verifier::external_body]
pub(crate) fn decimal_u64(n: u64) -> (r: String)
    ensures
        r@ == decimal_text(n as nat),
{
    n.to_string()
}

/// `i32::to_string`: `n` written in decimal, with a `-` when it is negative.
#[verifier::external_body]
pub(crate) fn signed_decimal(n: i32) -> (r: String)
    ensures
        r@ == signed_text(n as int),
{
    n.to_string()
}

/// `str::repeat` on a single space: `n` spaces.
#[verifier::external_body]
pub(crate) fn spaces(n: usize) -> (r: String)
    ensures
        r@ == Seq::new(n as nat, |i: int| ' '),
{
    " ".repeat(n)
}

/// Where the first `\n` of `s` is, or its length when it has none.
pub open spec fn line_end(s: Seq<char>) -> int
    decreases s.len(),
{
    if s.len() == 0 || s[0] == '\n' {
        0
    } else {
        1 + line_end(s.drop_first())
    }
}

/// The lines of `s` as `str::lines` cuts them: at each `\n`, with a `\r`
/// right before it dropped, and no empty line after a final `\n`.
pub open spec fn lines_of(s: Seq<char>) -> Seq<Seq<char>>
    decreases s.len(),
{
    if s.len() == 0 {
        seq![]
    } else {
        let k = line_end(s);
        if k >= s.len() {
            seq![s]
        } else {
            let line = s.take(k);
            let line = if line.len() > 0 && line.last() == '\r' { line.drop_last() } else { line };
            proof {
                lemma_line_end(s);
            }
            seq![line] + lines_of(s.skip(k + 1))
        }
    }
}

pub proof fn lemma_line_end(s: Seq<char>)
    ensures
        0 <= line_end(s) <= s.len(),
        line_end(s) < s.len() ==> s[line_end(s)] == '\n',
        forall|i: int| 0 <= i < line_end(s) ==> s[i] != '\n',
    decreases s.len(),
{
    if s.len() > 0 && s[0] != '\n' {
        lemma_line_end(s.drop_first());
        assert forall|i: int| 0 <= i < line_end(s) implies s[i] != '\n' by {
            if i > 0 {
                assert(s[i] == s.drop_first()[i - 1]);
            }
        }
    }
}

/// `str::lines`.
#[verifier::external_body]
pub(crate) fn lines<'a>(s: &'a str) -> (r: Vec<&'a str>)
    ensures
        r@.len() == lines_of(s@).len(),
        forall|k: int| 0 <= k < r@.len() ==> (#[trigger] r@[k])@ == lines_of(s@)[k],
{
    s.lines().collect()
}

} // verus!

verus! {

/// How many times `c` occurs in `s`.
pub open spec fn occurrences(s: Seq<char>, c: char) -> int
    decreases s.len(),
{
    if s.len() == 0 {
        0
    } else {
        occurrences(s.drop_last(), c) + if s.last() == c { 1int } else { 0int }
    }
}

/// A text's UTF-8 encoding is at least as long as its chars.
pub proof fn lemma_encoding_len(s: Seq<char>)
    ensures
        encode_utf8(s).len() >= s.len(),
    decreases s.len(),
{
    if s.len() > 0 {
        lemma_encoding_len(s.drop_first());
    }
}

/// The chars of `s` fit in memory: there are at most `usize::MAX` of them.
proof fn lemma_fits(s: &str, bytes: &[u8])
    requires
        bytes@ == s.spec_bytes(),
    ensures
        s@.len() <= usize::MAX,
{
    lemma_encoding_len(s@);
    assert(bytes@.len() <= usize::MAX) by {
        broadcast use vstd::slice::axiom_spec_len;
        assert(vstd::slice::spec_slice_len(bytes) == bytes@.len());
    }
}

/// How many chars `s` has after its last `\n`; all of them when it has none.
pub open spec fn tail_len(s: Seq<char>) -> int
    decreases s.len(),
{
    if s.len() == 0 {
        0
    } else if s.last() == '\n' {
        0
    } else {
        tail_len(s.drop_last()) + 1
    }
}

/// How many `\n` `s` holds, and how many chars follow the last of them.
pub fn newlines_and_tail(s: &str) -> (r: (usize, usize))
    ensures
        r.0 == occurrences(s@, '\n'),
        r.1 == tail_len(s@),
        r.1 <= s@.len() <= usize::MAX,
{
    let bytes = s.as_bytes();
    proof {
        lemma_fits(s, bytes);
    }
    let mut n: usize = 0;
    let mut tail: usize = 0;
    for x in it: s.chars()
        invariant
            it.seq() == s@,
            n == occurrences(s@.take(it.index()), '\n'),
            tail == tail_len(s@.take(it.index())),
            n <= it.index(),
            tail <= it.index(),
            s@.len() <= usize::MAX,
    {
        assert(s@.take(it.index() + 1).drop_last() =~= s@.take(it.index()));
        if x == '\n' {
            n = n + 1;
            tail = 0;
        } else {
            tail = tail + 1;
        }
    }
    assert(s@.take(s@.len() as int) =~= s@);
    (n, tail)
}

/// How many chars `s` has.
pub fn char_count(s: &str) -> (n: usize)
    ensures
        n == s@.len(),
{
    let bytes = s.as_bytes();
    proof {
        lemma_fits(s, bytes);
    }
    let mut n: usize = 0;
    for x in it: s.chars()
        invariant
            it.seq() == s@,
            n == it.index(),
            s@.len() <= usize::MAX,
    {
        n = n + 1;
    }
    n
}

/// Where the first `c` of `s` is, or its length when it has none.
pub open spec fn first_index(s: Seq<char>, c: char) -> int
    decreases s.len(),
{
    if s.len() == 0 || s[0] == c {
        0
    } else {
        1 + first_index(s.drop_first(), c)
    }
}

/// `str::split_once` with a char as the pattern: the text before the first
/// `c` and the text after it.
#[verifier::external_body]
pub(crate) fn split_once<'a>(s: &'a str, c: char) -> (r: Option<(&'a str, &'a str)>)
    ensures
        match r {
            Some((a, b)) => s@.contains(c) && a@ == s@.take(first_index(s@, c)) && b@ == s@.skip(
                first_index(s@, c) + 1,
            ),
            None => !s@.contains(c),
        },
{
    s.split_once(c)
}

/// Whether `c` is an ASCII decimal digit.
pub open spec fn is_digit(c: char) -> bool {
    '0' <= c && c <= '9'
}

/// The number the decimal digits `d` write.
pub open spec fn digits_value(d: Seq<char>) -> nat
    decreases d.len(),
{
    if d.len() == 0 {
        0
    } else {
        digits_value(d.drop_last()) * 10 + ((d.last() as nat) - ('0' as nat)) as nat
    }
}

/// `s` without the `+` it may start with.
pub open spec fn unsigned_part(s: Seq<char>) -> Seq<char> {
    if s.len() > 0 && s[0] == '+' {
        s.drop_first()
    } else {
        s
    }
}

/// Whether `s` reads as a `u32` the way `str::parse::<u32>` accepts one: an
/// optional `+`, then one or more decimal digits, for a value that fits.
pub open spec fn u32_text(s: Seq<char>) -> bool {
    let d = unsigned_part(s);
    &&& d.len() > 0
    &&& forall|k: int| 0 <= k < d.len() ==> is_digit(#[trigger] d[k])
    &&& digits_value(d) <= u32::MAX
}

proof fn lemma_digits_grow(d: Seq<char>, k: int)
    requires
        0 <= k <= d.len(),
        forall|j: int| 0 <= j < d.len() ==> is_digit(#[trigger] d[j]),
    ensures
        digits_value(d.take(k)) <= digits_value(d),
    decreases d.len() - k,
{
    if k < d.len() {
        lemma_digits_grow(d, k + 1);
        assert(d.take(k + 1).drop_last() =~= d.take(k));
    } else {
        assert(d.take(k) =~= d);
    }
}

/// Whether `s` reads as a `u32`, as `str::parse::<u32>` decides it.
pub fn is_u32_text(s: &str) -> (r: bool)
    ensures
        r == u32_text(s@),
{
    let bytes = s.as_bytes();
    proof {
        lemma_fits(s, bytes);
    }
    let mut value: u64 = 0;
    let mut seen: usize = 0;
    let mut signed = false;
    let mut first = true;
    let ghost d = unsigned_part(s@);
    for x in it: s.chars()
        invariant
            it.seq() == s@,
            first == (it.index() == 0),
            d == unsigned_part(s@),
            s@.len() <= usize::MAX,
            signed == (it.index() > 0 && s@[0] == '+'),
            seen == it.index() - (if signed { 1int } else { 0int }),
            forall|k: int| 0 <= k < seen ==> is_digit(#[trigger] d[k]),
            value == digits_value(d.take(seen as int)),
            value <= u32::MAX,
    {
        if first && x == '+' {
            signed = true;
        } else {
            assert(seen < d.len());
            assert(d[seen as int] == x);
            if !('0' <= x && x <= '9') {
                assert(!is_digit(d[seen as int]));
                return false;
            }
            assert(d.take(seen + 1).drop_last() =~= d.take(seen as int));
            let next: u64 = value * 10 + ((x as u32) - ('0' as u32)) as u64;
            if next > 0xffff_ffff {
                proof {
                    if u32_text(s@) {
                        lemma_digits_grow(d, seen + 1);
                    }
                }
                return false;
            }
            value = next;
            seen = seen + 1;
        }
        first = false;
    }
    assert(d.take(seen as int) =~= d);
    seen > 0
}

} // verus!
