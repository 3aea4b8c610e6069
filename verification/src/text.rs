//! ASCII-aware operations on text and on label bytes.
//!
//! Text is modelled as a sequence of characters, label data as a sequence of
//! bytes. Case folding touches the letters `A` to `Z` only, in both worlds.

use vstd::prelude::*;
use vstd::slice::slice_subrange;
use vstd::string::*;

verus! {

/// `String::push` appends exactly the given character.
pub assume_specification[ String::push ](s: &mut String, c: char)
    ensures
        final(s)@ == old(s)@.push(c),
;

/// The bytes that encode a text.
pub open spec fn utf8(s: Seq<char>) -> Seq<u8> {
    vstd::utf8::encode_utf8(s)
}

/// The views of the elements of a sequence, in order.
pub open spec fn views<T: View>(s: Seq<T>) -> Seq<T::V> {
    Seq::new(s.len(), |i: int| s[i]@)
}

pub broadcast proof fn lemma_views_push<T: View>(s: Seq<T>, x: T)
    ensures
        #[trigger] views(s.push(x)) == views(s).push(x@),
{
    assert(views(s.push(x)) =~= views(s).push(x@));
}

/// The ASCII whitespace characters: space, tab, line feed, form feed and
/// carriage return.
pub open spec fn space(c: char) -> bool {
    c == ' ' || c == '\t' || c == '\n' || c == '\u{c}' || c == '\r'
}

pub fn is_space(c: char) -> (r: bool)
    ensures
        r == space(c),
{
    c == ' ' || c == '\t' || c == '\n' || c == '\u{c}' || c == '\r'
}

/// A character with `A` to `Z` folded to `a` to `z`.
pub open spec fn fold(c: char) -> char {
    if 'A' <= c && c <= 'Z' {
        (c as u32 + 32) as char
    } else {
        c
    }
}

pub fn fold_char(c: char) -> (r: char)
    ensures
        r == fold(c),
{
    if 'A' <= c && c <= 'Z' {
        (c as u8 + 32) as char
    } else {
        c
    }
}

/// Text with every character folded.
pub open spec fn lowered(s: Seq<char>) -> Seq<char> {
    s.map_values(|c: char| fold(c))
}

pub fn lowercase(s: &[char]) -> (r: Vec<char>)
    ensures
        r@ == lowered(s@),
{
    let mut out: Vec<char> = Vec::new();
    for i in 0..s.len()
        invariant
            out@ == lowered(s@.take(i as int)),
    {
        out.push(fold_char(s[i]));
        assert(s@.take(i + 1) =~= s@.take(i as int).push(s@[i as int]));
    }
    assert(s@.take(s@.len() as int) =~= s@);
    out
}

/// The characters of a string, as a vector.
pub fn to_chars(s: &str) -> (r: Vec<char>)
    ensures
        r@ == s@,
{
    let mut out: Vec<char> = Vec::new();
    for c in it: s.chars()
        invariant
            it.seq() == s@,
            out@ == s@.take(it.index() as int),
    {
        out.push(c);
        assert(s@.take(it.index() + 1) =~= s@.take(it.index() as int).push(c));
    }
    assert(s@.take(s@.len() as int) =~= s@);
    out
}

/// The string made of the given characters.
pub fn to_text(s: &[char]) -> (r: String)
    ensures
        r@ == s@,
{
    let mut out: String = String::new();
    for i in 0..s.len()
        invariant
            out@ == s@.take(i as int),
    {
        out.push(s[i]);
        assert(s@.take(i + 1) =~= s@.take(i as int).push(s@[i as int]));
    }
    assert(s@.take(s@.len() as int) =~= s@);
    out
}

/// A byte with `A` to `Z` folded to `a` to `z`.
pub open spec fn fold_u8(b: u8) -> u8 {
    if 0x41 <= b && b <= 0x5a {
        (b + 32) as u8
    } else {
        b
    }
}

pub fn fold_byte(b: u8) -> (r: u8)
    ensures
        r == fold_u8(b),
{
    if 0x41 <= b && b <= 0x5a {
        b + 32
    } else {
        b
    }
}

/// Bytes with every byte folded.
pub open spec fn lowered_bytes(s: Seq<u8>) -> Seq<u8> {
    s.map_values(|b: u8| fold_u8(b))
}

pub fn lowercase_bytes(s: &[u8]) -> (r: Vec<u8>)
    ensures
        r@ == lowered_bytes(s@),
{
    let mut out: Vec<u8> = Vec::new();
    for i in 0..s.len()
        invariant
            out@ == lowered_bytes(s@.take(i as int)),
    {
        out.push(fold_byte(s[i]));
        assert(s@.take(i + 1) =~= s@.take(i as int).push(s@[i as int]));
    }
    assert(s@.take(s@.len() as int) =~= s@);
    out
}

/// Equality of two labels, ignoring ASCII case.
pub open spec fn same_bytes(a: Seq<u8>, b: Seq<u8>) -> bool {
    lowered_bytes(a) == lowered_bytes(b)
}

pub fn eq_bytes_ci(a: &[u8], b: &[u8]) -> (r: bool)
    ensures
        r == same_bytes(a@, b@),
{
    if a.len() != b.len() {
        assert(lowered_bytes(a@).len() != lowered_bytes(b@).len());
        return false;
    }
    for i in 0..a.len()
        invariant
            a@.len() == b@.len(),
            forall|k: int| 0 <= k < i ==> fold_u8(a@[k]) == fold_u8(b@[k]),
    {
        if fold_byte(a[i]) != fold_byte(b[i]) {
            assert(lowered_bytes(a@)[i as int] != lowered_bytes(b@)[i as int]);
            return false;
        }
    }
    assert(lowered_bytes(a@) =~= lowered_bytes(b@));
    true
}

/// Equality of two texts, ignoring ASCII case.
pub open spec fn same_text(a: Seq<char>, b: Seq<char>) -> bool {
    lowered(a) == lowered(b)
}

pub fn eq_text_ci(a: &[char], b: &[char]) -> (r: bool)
    ensures
        r == same_text(a@, b@),
{
    if a.len() != b.len() {
        assert(lowered(a@).len() != lowered(b@).len());
        return false;
    }
    for i in 0..a.len()
        invariant
            a@.len() == b@.len(),
            forall|k: int| 0 <= k < i ==> fold(a@[k]) == fold(b@[k]),
    {
        if fold_char(a[i]) != fold_char(b[i]) {
            assert(lowered(a@)[i as int] != lowered(b@)[i as int]);
            return false;
        }
    }
    assert(lowered(a@) =~= lowered(b@));
    true
}

pub fn eq_chars(a: &[char], b: &[char]) -> (r: bool)
    ensures
        r == (a@ == b@),
{
    if a.len() != b.len() {
        return false;
    }
    for i in 0..a.len()
        invariant
            a@.len() == b@.len(),
            forall|k: int| 0 <= k < i ==> a@[k] == b@[k],
    {
        if a[i] != b[i] {
            return false;
        }
    }
    assert(a@ =~= b@);
    true
}

/// ASCII bytes read as characters.
pub open spec fn ascii(b: Seq<u8>) -> Seq<char> {
    b.map_values(|x: u8| x as char)
}

/// ASCII characters occupy one byte each.
pub proof fn lemma_ascii_bytes(b: Seq<u8>)
    requires
        forall|i: int| 0 <= i < b.len() ==> b[i] < 128,
    ensures
        utf8(ascii(b)) == b,
{
    vstd::utf8::is_ascii_chars_encode_utf8(ascii(b));
    assert(utf8(ascii(b)) =~= b);
}

/// The bytes of a string.
pub fn to_bytes(s: &str) -> (r: Vec<u8>)
    ensures
        r@ == utf8(s@),
{
    vstd::slice::slice_to_vec(s.as_bytes())
}

/// A copy of a byte vector.
pub fn copy_bytes(b: &Vec<u8>) -> (r: Vec<u8>)
    ensures
        r@ == b@,
{
    vstd::slice::slice_to_vec(b.as_slice())
}

/// A copy of a list of labels.
pub fn copy_labels(labels: &Vec<Vec<u8>>) -> (r: Vec<Vec<u8>>)
    ensures
        views(r@) == views(labels@),
{
    let mut out: Vec<Vec<u8>> = Vec::new();
    for i in 0..labels.len()
        invariant
            views(out@) == views(labels@).take(i as int),
    {
        out.push(copy_bytes(&labels[i]));
        proof {
            lemma_views_push(out@.drop_last(), out@.last());
            assert(out@.drop_last().push(out@.last()) =~= out@);
            assert(views(labels@).take(i + 1) =~= views(labels@).take(i as int).push(
                labels@[i as int]@,
            ));
        }
    }
    out
}

// ---- composing text --------------------------------------------------------

/// A decimal digit.
pub open spec fn digit_char(d: nat) -> char {
    (0x30 + d) as char
}

/// A number in decimal, without leading zeros.
pub open spec fn decimal(n: nat) -> Seq<char>
    decreases n,
{
    if n < 10 {
        seq![digit_char(n)]
    } else {
        decimal(n / 10).push(digit_char(n % 10))
    }
}

pub fn decimal_text(n: u64) -> (r: String)
    ensures
        r@ == decimal(n as nat),
    decreases n,
{
    let mut out: String = if n < 10 {
        String::new()
    } else {
        decimal_text(n / 10)
    };
    out.push((0x30 + (n % 10) as u8) as char);
    out
}

/// `n` copies of a character.
pub open spec fn repeated(c: char, n: nat) -> Seq<char> {
    Seq::new(n, |i: int| c)
}

pub fn repeat_char(c: char, n: usize) -> (r: String)
    ensures
        r@ == repeated(c, n as nat),
{
    let mut out: String = String::new();
    for i in 0..n
        invariant
            out@ == repeated(c, i as nat),
    {
        out.push(c);
        assert(repeated(c, (i + 1) as nat) =~= repeated(c, i as nat).push(c));
    }
    out
}

/// `a` followed by `b`.
pub fn join2(a: &str, b: &str) -> (r: String)
    ensures
        r@ == a@ + b@,
{
    let mut out: String = a.to_owned();
    out.append(b);
    out
}

/// `a`, `b` and `c` in a row.
pub fn join3(a: &str, b: &str, c: &str) -> (r: String)
    ensures
        r@ == a@ + b@ + c@,
{
    let mut out: String = a.to_owned();
    out.append(b);
    out.append(c);
    out
}

/// How many bytes the first `n` characters of a text occupy.
pub open spec fn byte_offset(s: Seq<char>, n: int) -> int {
    utf8(s.take(n)).len() as int
}

pub fn byte_offset_of(s: &[char], n: usize) -> (r: usize)
    requires
        n <= s.len(),
    ensures
        r == byte_offset(s@, n as int),
{
    let head = to_text(slice_subrange(s, 0, n));
    assert(s@.subrange(0, n as int) =~= s@.take(n as int));
    head.as_str().as_bytes().len()
}

// ---- trimming and splitting ------------------------------------------------

/// How many whitespace characters a text starts with.
pub open spec fn leading_spaces(s: Seq<char>) -> int
    decreases s.len(),
{
    if s.len() == 0 || !space(s[0]) {
        0
    } else {
        1 + leading_spaces(s.skip(1))
    }
}

pub fn count_leading_spaces(s: &[char]) -> (r: usize)
    ensures
        r == leading_spaces(s@),
        r <= s.len(),
        r < s@.len() ==> !space(s@[r as int]),
{
    let mut i: usize = 0;
    assert(s@.skip(0) =~= s@);
    while i < s.len() && is_space(s[i])
        invariant
            i <= s@.len(),
            leading_spaces(s@) == i + leading_spaces(s@.skip(i as int)),
        decreases s@.len() - i,
    {
        assert(s@.skip(i as int).skip(1) =~= s@.skip(i + 1));
        i = i + 1;
    }
    i
}

/// A text without the whitespace at its end.
pub open spec fn trimmed_end(s: Seq<char>) -> Seq<char>
    decreases s.len(),
{
    if s.len() == 0 || !space(s.last()) {
        s
    } else {
        trimmed_end(s.drop_last())
    }
}

/// The length of a text without the whitespace at its end.
pub fn trimmed_end_len(s: &[char]) -> (r: usize)
    ensures
        r <= s.len(),
        s@.take(r as int) == trimmed_end(s@),
{
    let mut n: usize = s.len();
    assert(s@.take(n as int) =~= s@);
    while n > 0 && is_space(s[n - 1])
        invariant
            n <= s.len(),
            trimmed_end(s@) == trimmed_end(s@.take(n as int)),
        decreases n,
    {
        assert(s@.take(n as int).drop_last() =~= s@.take(n - 1));
        n = n - 1;
    }
    n
}

/// Where the first `c` stands, or the length of the text.
pub open spec fn index_of_char(s: Seq<char>, c: char) -> int
    decreases s.len(),
{
    if s.len() == 0 || s[0] == c {
        0
    } else {
        1 + index_of_char(s.skip(1), c)
    }
}

pub fn find_char(s: &[char], c: char) -> (r: usize)
    ensures
        r == index_of_char(s@, c),
        r <= s.len(),
        r < s@.len() ==> s@[r as int] == c,
{
    let mut i: usize = 0;
    assert(s@.skip(0) =~= s@);
    while i < s.len() && s[i] != c
        invariant
            i <= s@.len(),
            index_of_char(s@, c) == i + index_of_char(s@.skip(i as int), c),
        decreases s@.len() - i,
    {
        assert(s@.skip(i as int).skip(1) =~= s@.skip(i + 1));
        i = i + 1;
    }
    i
}

/// The length of the word a text starts with.
pub open spec fn word_len(s: Seq<char>) -> int
    decreases s.len(),
{
    if s.len() == 0 || space(s[0]) {
        0
    } else {
        1 + word_len(s.skip(1))
    }
}

pub fn first_word_len(s: &[char]) -> (r: usize)
    ensures
        r == word_len(s@),
        r <= s.len(),
{
    let mut i: usize = 0;
    assert(s@.skip(0) =~= s@);
    while i < s.len() && !is_space(s[i])
        invariant
            i <= s@.len(),
            word_len(s@) == i + word_len(s@.skip(i as int)),
        decreases s@.len() - i,
    {
        assert(s@.skip(i as int).skip(1) =~= s@.skip(i + 1));
        i = i + 1;
    }
    i
}

/// A text starts with a word, ignoring case.
pub open spec fn starts_with_ci(s: Seq<char>, word: Seq<char>) -> bool {
    s.len() >= word.len() && same_text(s.take(word.len() as int), word)
}

pub fn has_prefix_ci(s: &[char], word: &[char]) -> (r: bool)
    ensures
        r == starts_with_ci(s@, word@),
{
    if s.len() < word.len() {
        return false;
    }
    assert(s@.subrange(0, word@.len() as int) =~= s@.take(word@.len() as int));
    eq_text_ci(slice_subrange(s, 0, word.len()), word)
}

/// What follows the first `n` characters.
pub fn rest_of(s: &[char], n: usize) -> (r: &[char])
    requires
        n <= s.len(),
    ensures
        r@ == s@.skip(n as int),
{
    assert(s@.subrange(n as int, s@.len() as int) =~= s@.skip(n as int));
    slice_subrange(s, n, s.len())
}

/// The first `n` characters.
pub fn head_of(s: &[char], n: usize) -> (r: &[char])
    requires
        n <= s.len(),
    ensures
        r@ == s@.take(n as int),
{
    assert(s@.subrange(0, n as int) =~= s@.take(n as int));
    slice_subrange(s, 0, n)
}

/// A text without one `c` at its end, if it has one there.
pub open spec fn without_last(s: Seq<char>, c: char) -> Seq<char> {
    if s.len() > 0 && s.last() == c {
        s.drop_last()
    } else {
        s
    }
}

pub fn strip_last(s: &[char], c: char) -> (r: &[char])
    ensures
        r@ == without_last(s@, c),
{
    if s.len() > 0 && s[s.len() - 1] == c {
        assert(s@.take(s@.len() - 1) =~= s@.drop_last());
        head_of(s, s.len() - 1)
    } else {
        s
    }
}

/// The lines of a text. A line ends before a line feed; the last one may end
/// with the text. Carriage returns before the end of a line are dropped: two
/// where a line feed follows, one where the text ends.
pub open spec fn lines(s: Seq<char>) -> Seq<Seq<char>>
    decreases s.len(),
{
    let n = index_of_char(s, '\n');
    if s.len() == 0 {
        Seq::empty()
    } else if 0 <= n < s.len() {
        seq![without_last(without_last(s.take(n), '\r'), '\r')] + lines(s.skip(n + 1))
    } else {
        seq![without_last(s, '\r')]
    }
}

pub fn split_lines(s: &[char]) -> (r: Vec<Vec<char>>)
    ensures
        views(r@) == lines(s@),
{
    let mut out: Vec<Vec<char>> = Vec::new();
    let mut at: usize = 0;
    assert(s@.skip(0) =~= s@);
    assert(views(out@) + lines(s@) =~= lines(s@));
    while at < s.len()
        invariant
            at <= s@.len(),
            views(out@) + lines(s@.skip(at as int)) == lines(s@),
        decreases s@.len() - at,
    {
        let rest = rest_of(s, at);
        let n: usize = find_char(rest, '\n');
        let ghost before = out@;
        if n == rest.len() {
            let line = vstd::slice::slice_to_vec(strip_last(rest, '\r'));
            out.push(line);
            proof {
                lemma_views_push(before, line);
                assert(s@.skip(s@.len() as int) =~= Seq::empty());
                assert(views(out@) + lines(s@.skip(s@.len() as int)) =~= views(before) + lines(
                    s@.skip(at as int),
                ));
            }
            at = s.len();
        } else {
            let line = vstd::slice::slice_to_vec(
                strip_last(strip_last(head_of(rest, n), '\r'), '\r'),
            );
            out.push(line);
            proof {
                lemma_views_push(before, line);
                assert(rest@.skip(n + 1) =~= s@.skip(at + n + 1));
                assert(views(out@) + lines(s@.skip(at + n + 1)) =~= views(before) + lines(
                    s@.skip(at as int),
                ));
            }
            at = at + n + 1;
        }
    }
    assert(s@.skip(at as int) =~= Seq::empty());
    assert(views(out@) + lines(s@.skip(at as int)) =~= views(out@));
    out
}

// ---- numbers ---------------------------------------------------------------

/// A decimal digit.
pub open spec fn is_digit(c: char) -> bool {
    '0' <= c && c <= '9'
}

/// The number that decimal digits denote.
pub open spec fn decimal_value(s: Seq<char>) -> nat
    decreases s.len(),
{
    if s.len() == 0 {
        0
    } else {
        decimal_value(s.drop_last()) * 10 + (s.last() as u32 - 0x30) as nat
    }
}

/// The number a text of one or more decimal digits denotes, if it is at most
/// `max`.
pub open spec fn number(s: Seq<char>, max: nat) -> Option<nat> {
    if s.len() > 0 && (forall|i: int| 0 <= i < s.len() ==> is_digit(#[trigger] s[i]))
        && decimal_value(s) <= max {
        Some(decimal_value(s))
    } else {
        None
    }
}

pub fn parse_number(s: &[char], max: u32) -> (r: Option<u32>)
    ensures
        number(s@, max as nat) == (match r {
            Some(n) => Some(n as nat),
            None => None,
        }),
{
    if s.len() == 0 {
        return None;
    }
    let mut sum: u64 = 0;
    for i in 0..s.len()
        invariant
            forall|k: int| 0 <= k < i ==> is_digit(#[trigger] s@[k]),
            decimal_value(s@.take(i as int)) <= max ==> sum == decimal_value(s@.take(i as int)),
            decimal_value(s@.take(i as int)) > max ==> sum > max,
    {
        let c = s[i];
        if !('0' <= c && c <= '9') {
            assert(!is_digit(s@[i as int]));
            return None;
        }
        assert(s@.take(i + 1).drop_last() =~= s@.take(i as int));
        if sum <= max as u64 {
            sum = sum * 10 + (c as u32 - 0x30) as u64;
        }
    }
    assert(s@.take(s@.len() as int) =~= s@);
    if sum <= max as u64 {
        Some(sum as u32)
    } else {
        None
    }
}

/// The number below 2 to the power of 32 that a text denotes: decimal digits,
/// with an optional `+` before them.
pub open spec fn u32_text(s: Seq<char>) -> Option<nat> {
    if s.len() > 0 && s[0] == '+' {
        number(s.skip(1), u32::MAX as nat)
    } else {
        number(s, u32::MAX as nat)
    }
}

pub fn parse_u32(s: &[char]) -> (r: Option<u32>)
    ensures
        u32_text(s@) == (match r {
            Some(n) => Some(n as nat),
            None => None,
        }),
{
    if s.len() > 0 && s[0] == '+' {
        parse_number(rest_of(s, 1), 0xffff_ffff)
    } else {
        parse_number(s, 0xffff_ffff)
    }
}

// ---- searching -------------------------------------------------------------

/// A text starts with another.
pub open spec fn starts_with(s: Seq<char>, pat: Seq<char>) -> bool {
    s.len() >= pat.len() && s.take(pat.len() as int) == pat
}

pub fn has_prefix(s: &[char], pat: &[char]) -> (r: bool)
    ensures
        r == starts_with(s@, pat@),
{
    s.len() >= pat.len() && eq_chars(head_of(s, pat.len()), pat)
}

/// How often a text occurs in another, counted from the left without overlaps.
pub open spec fn occurrences(s: Seq<char>, pat: Seq<char>) -> nat
    decreases s.len(),
{
    if s.len() == 0 || pat.len() == 0 {
        0
    } else if starts_with(s, pat) {
        1 + occurrences(s.skip(pat.len() as int), pat)
    } else {
        occurrences(s.skip(1), pat)
    }
}

pub fn count_occurrences(s: &[char], pat: &[char]) -> (r: usize)
    requires
        pat.len() > 0,
    ensures
        r == occurrences(s@, pat@),
        r * pat.len() <= s.len(),
{
    let mut at: usize = 0;
    let mut count: usize = 0;
    assert(s@.skip(0) =~= s@);
    while at < s.len()
        invariant
            pat.len() > 0,
            count <= at <= s.len(),
            count * pat.len() <= at,
            occurrences(s@, pat@) == count + occurrences(s@.skip(at as int), pat@),
        decreases s.len() - at,
    {
        let rest = rest_of(s, at);
        if has_prefix(rest, pat) {
            assert(rest@.skip(pat@.len() as int) =~= s@.skip(at + pat@.len()));
            assert((count + 1) * pat.len() == count * pat.len() + pat.len()) by (nonlinear_arith);
            count = count + 1;
            at = at + pat.len();
        } else {
            assert(rest@.skip(1) =~= s@.skip(at + 1));
            at = at + 1;
        }
    }
    count
}

/// Where a text first occurs in another.
pub open spec fn find(s: Seq<char>, pat: Seq<char>) -> Option<int>
    decreases s.len(),
{
    if starts_with(s, pat) {
        Some(0)
    } else if s.len() == 0 {
        None
    } else {
        match find(s.skip(1), pat) {
            Some(i) => Some(i + 1),
            None => None,
        }
    }
}

pub fn find_text(s: &[char], pat: &[char]) -> (r: Option<usize>)
    ensures
        find(s@, pat@) == (match r {
            Some(i) => Some(i as int),
            None => None,
        }),
        r matches Some(i) ==> i + pat.len() <= s.len(),
{
    let mut at: usize = 0;
    assert(s@.skip(0) =~= s@);
    while at < s.len()
        invariant
            at <= s.len(),
            find(s@, pat@) == (match find(s@.skip(at as int), pat@) {
                Some(i) => Some(i + at),
                None => None,
            }),
        decreases s.len() - at,
    {
        let rest = rest_of(s, at);
        if has_prefix(rest, pat) {
            return Some(at);
        }
        assert(rest@.skip(1) =~= s@.skip(at + 1));
        at = at + 1;
    }
    if pat.len() == 0 {
        assert(s@.skip(at as int).take(0) =~= pat@);
        return Some(at);
    }
    None
}

/// The pieces of a text between the `c` in it.
pub open spec fn pieces(s: Seq<char>, c: char) -> Seq<Seq<char>>
    decreases s.len(),
{
    let n = index_of_char(s, c);
    if 0 <= n < s.len() {
        seq![s.take(n)] + pieces(s.skip(n + 1), c)
    } else {
        seq![s]
    }
}

pub fn split_on(s: &[char], c: char) -> (r: Vec<Vec<char>>)
    ensures
        views(r@) == pieces(s@, c),
{
    let mut out: Vec<Vec<char>> = Vec::new();
    let mut at: usize = 0;
    assert(s@.skip(0) =~= s@);
    assert(views(out@) + pieces(s@, c) =~= pieces(s@, c));
    loop
        invariant
            at <= s.len(),
            views(out@) + pieces(s@.skip(at as int), c) == pieces(s@, c),
        decreases s.len() - at,
    {
        let rest = rest_of(s, at);
        let n: usize = find_char(rest, c);
        let ghost before = out@;
        if n == rest.len() {
            let piece = vstd::slice::slice_to_vec(rest);
            out.push(piece);
            proof {
                lemma_views_push(before, piece);
                assert(views(out@) =~= views(before) + pieces(s@.skip(at as int), c));
            }
            return out;
        }
        let piece = vstd::slice::slice_to_vec(head_of(rest, n));
        out.push(piece);
        proof {
            lemma_views_push(before, piece);
            assert(rest@.skip(n + 1) =~= s@.skip(at + n + 1));
            assert(views(out@) + pieces(s@.skip(at + n + 1), c) =~= views(before) + pieces(
                s@.skip(at as int),
                c,
            ));
        }
        at = at + n + 1;
    }
}

// ---- Unicode whitespace ----------------------------------------------------

/// A character of Unicode's `White_Space` property.
pub open spec fn white_space(c: char) -> bool {
    let n = c as u32;
    ||| 0x09 <= n <= 0x0d
    ||| n == 0x20
    ||| n == 0x85
    ||| n == 0xa0
    ||| n == 0x1680
    ||| 0x2000 <= n <= 0x200a
    ||| n == 0x2028
    ||| n == 0x2029
    ||| n == 0x202f
    ||| n == 0x205f
    ||| n == 0x3000
}

fn is_white_space(c: char) -> (r: bool)
    ensures
        r == white_space(c),
{
    let n: u32 = c as u32;
    (0x09 <= n && n <= 0x0d) || n == 0x20 || n == 0x85 || n == 0xa0 || n == 0x1680 || (0x2000 <= n
        && n <= 0x200a) || n == 0x2028 || n == 0x2029 || n == 0x202f || n == 0x205f || n == 0x3000
}

/// A text without the whitespace around it.
pub open spec fn trimmed(s: Seq<char>) -> Seq<char>
    decreases s.len(),
{
    if s.len() == 0 {
        s
    } else if white_space(s[0]) {
        trimmed(s.skip(1))
    } else if white_space(s.last()) {
        trimmed(s.drop_last())
    } else {
        s
    }
}

pub fn trim(s: &[char]) -> (r: &[char])
    ensures
        r@ == trimmed(s@),
{
    let mut from: usize = 0;
    let mut to: usize = s.len();
    assert(s@.subrange(0, to as int) =~= s@);
    while from < to && is_white_space(s[from])
        invariant
            from <= to == s.len(),
            trimmed(s@) == trimmed(s@.subrange(from as int, to as int)),
        decreases to - from,
    {
        assert(s@.subrange(from as int, to as int).skip(1) =~= s@.subrange(from + 1, to as int));
        from = from + 1;
    }
    while from < to && is_white_space(s[to - 1])
        invariant
            from <= to <= s.len(),
            from < to ==> !white_space(s@[from as int]),
            trimmed(s@) == trimmed(s@.subrange(from as int, to as int)),
        decreases to - from,
    {
        assert(s@.subrange(from as int, to as int).drop_last() =~= s@.subrange(
            from as int,
            to - 1,
        ));
        to = to - 1;
    }
    slice_subrange(s, from, to)
}

// ---- properties ------------------------------------------------------------

/// How often a text occurs does not change where it is cut at a character that
/// the text does not hold.
pub proof fn lemma_occurrences_split(a: Seq<char>, c: char, b: Seq<char>, pat: Seq<char>)
    requires
        pat.len() > 0,
        !pat.contains(c),
    ensures
        occurrences(a + seq![c] + b, pat) == occurrences(a, pat) + occurrences(b, pat),
    decreases a.len(),
{
    let s = a + seq![c] + b;
    let n = pat.len() as int;
    if a.len() == 0 {
        assert(s[0] == c);
        if starts_with(s, pat) {
            assert(pat[0] == s.take(n)[0]);
        }
        assert(s.skip(1) =~= b);
    } else if starts_with(a, pat) {
        assert(s.take(n) =~= a.take(n));
        assert(s.skip(n) =~= a.skip(n) + seq![c] + b);
        lemma_occurrences_split(a.skip(n), c, b, pat);
    } else {
        if starts_with(s, pat) {
            if n <= a.len() {
                assert(s.take(n) =~= a.take(n));
            } else {
                assert(s.take(n)[a.len() as int] == c);
                assert(pat[a.len() as int] == c);
            }
        }
        assert(s.skip(1) =~= a.skip(1) + seq![c] + b);
        lemma_occurrences_split(a.skip(1), c, b, pat);
    }
}

/// A text is found exactly if it occurs.
pub proof fn lemma_find_occurs(s: Seq<char>, pat: Seq<char>)
    requires
        pat.len() > 0,
    ensures
        find(s, pat) is Some <==> occurrences(s, pat) >= 1,
    decreases s.len(),
{
    if s.len() > 0 && !starts_with(s, pat) {
        lemma_find_occurs(s.skip(1), pat);
    }
}

/// How often a text occurs in the lowercased pieces of another, all in all.
pub open spec fn occurrences_in(parts: Seq<Seq<char>>, pat: Seq<char>) -> nat
    decreases parts.len(),
{
    if parts.len() == 0 {
        0
    } else {
        occurrences(lowered(parts[0]), pat) + occurrences_in(parts.drop_first(), pat)
    }
}

/// Splitting at a character that a text does not hold loses no occurrence of it.
pub proof fn lemma_occurrences_pieces(s: Seq<char>, c: char, pat: Seq<char>)
    requires
        pat.len() > 0,
        !pat.contains(c),
        fold(c) == c,
    ensures
        occurrences_in(pieces(s, c), pat) == occurrences(lowered(s), pat),
    decreases s.len(),
{
    let n = index_of_char(s, c);
    lemma_index_of_char(s, c);
    if n < s.len() {
        let rest = s.skip(n + 1);
        lemma_occurrences_pieces(rest, c, pat);
        assert(pieces(s, c).drop_first() =~= pieces(rest, c));
        assert(lowered(s) =~= lowered(s.take(n)) + seq![c] + lowered(rest));
        lemma_occurrences_split(lowered(s.take(n)), c, lowered(rest), pat);
    } else {
        reveal_with_fuel(occurrences_in, 2);
        assert(pieces(s, c).drop_first() =~= Seq::empty());
    }
}

pub proof fn lemma_index_of_char(s: Seq<char>, c: char)
    ensures
        0 <= index_of_char(s, c) <= s.len(),
        index_of_char(s, c) < s.len() ==> s[index_of_char(s, c)] == c,
    decreases s.len(),
{
    if s.len() > 0 && s[0] != c {
        lemma_index_of_char(s.skip(1), c);
    }
}

/// If a text occurs once in all pieces together, it occurs in exactly one.
pub proof fn lemma_one_piece(parts: Seq<Seq<char>>, pat: Seq<char>) -> (at: int)
    requires
        occurrences_in(parts, pat) == 1,
    ensures
        0 <= at < parts.len(),
        forall|i: int|
            0 <= i < parts.len() ==> (occurrences(lowered(#[trigger] parts[i]), pat) >= 1 <==> i
                == at),
    decreases parts.len(),
{
    let rest = parts.drop_first();
    if occurrences(lowered(parts[0]), pat) == 1 {
        lemma_no_piece(rest, pat);
        assert forall|i: int| 0 <= i < parts.len() implies (occurrences(
            lowered(#[trigger] parts[i]),
            pat,
        ) >= 1 <==> i == 0) by {
            if i > 0 {
                assert(parts[i] == rest[i - 1]);
            }
        }
        0
    } else {
        let k = lemma_one_piece(rest, pat);
        assert forall|i: int| 0 <= i < parts.len() implies (occurrences(
            lowered(#[trigger] parts[i]),
            pat,
        ) >= 1 <==> i == k + 1) by {
            if i > 0 {
                assert(parts[i] == rest[i - 1]);
            }
        }
        k + 1
    }
}

proof fn lemma_no_piece(parts: Seq<Seq<char>>, pat: Seq<char>)
    requires
        occurrences_in(parts, pat) == 0,
    ensures
        forall|i: int|
            0 <= i < parts.len() ==> occurrences(lowered(#[trigger] parts[i]), pat) == 0,
    decreases parts.len(),
{
    if parts.len() > 0 {
        let rest = parts.drop_first();
        lemma_no_piece(rest, pat);
        assert forall|i: int| 0 <= i < parts.len() implies occurrences(
            lowered(#[trigger] parts[i]),
            pat,
        ) == 0 by {
            if i > 0 {
                assert(parts[i] == rest[i - 1]);
            }
        }
    }
}

/// Lowercasing twice is lowercasing once.
pub proof fn lemma_lowered_bytes_twice(b: Seq<u8>)
    ensures
        lowered_bytes(lowered_bytes(b)) == lowered_bytes(b),
{
    assert(lowered_bytes(lowered_bytes(b)) =~= lowered_bytes(b));
}

// ---- laws ------------------------------------------------------------------

/// The two bytes are the same, or one letter in upper and in lower case.
pub open spec fn alike(x: u8, y: u8) -> bool {
    ||| x == y
    ||| 0x41 <= x <= 0x5a && y == x + 32
    ||| 0x41 <= y <= 0x5a && x == y + 32
}

/// Labels are equal exactly if they have equally many bytes and differ, byte by
/// byte, in the case of letters at most.
pub proof fn law_equal_labels_differ_in_case_only(a: Seq<u8>, b: Seq<u8>)
    ensures
        same_bytes(a, b) <==> a.len() == b.len() && forall|i: int|
            0 <= i < a.len() ==> alike(#[trigger] a[i], b[i]),
{
    let x = lowered_bytes(a);
    let y = lowered_bytes(b);
    if same_bytes(a, b) {
        assert(x.len() == y.len());
        assert forall|i: int| 0 <= i < a.len() implies alike(#[trigger] a[i], b[i]) by {
            assert(x[i] == y[i]);
        }
    }
    if a.len() == b.len() && forall|i: int|
        0 <= i < a.len() ==> alike(#[trigger] a[i], b[i]) {
        assert(x =~= y);
    }
}

/// Lowering a text keeps its length, adds 32 to the letters `A` to `Z` and keeps
/// every other character.
pub proof fn law_lowering_changes_capitals_only(s: Seq<char>)
    ensures
        lowered(s).len() == s.len(),
        forall|i: int|
            0 <= i < s.len() ==> #[trigger] lowered(s)[i] as u32 == (if 0x41 <= s[i] as u32
                <= 0x5a {
                s[i] as u32 + 32
            } else {
                s[i] as int
            }),
{
}

/// Where a character first stands: it stands there, and nowhere before.
pub proof fn law_first_place_of_a_character(s: Seq<char>, c: char)
    ensures
        ({
            let n = index_of_char(s, c);
            &&& 0 <= n <= s.len()
            &&& n < s.len() ==> s[n] == c
            &&& forall|i: int| 0 <= i < n ==> #[trigger] s[i] != c
        }),
    decreases s.len(),
{
    if s.len() > 0 && s[0] != c {
        law_first_place_of_a_character(s.skip(1), c);
        let n = index_of_char(s.skip(1), c);
        assert forall|i: int| 0 <= i < n + 1 implies #[trigger] s[i] != c by {
            if i > 0 {
                assert(s.skip(1)[i - 1] == s[i]);
            }
        }
    }
}

pub proof fn lemma_index_behind(a: Seq<char>, c: char, b: Seq<char>)
    requires
        !a.contains(c),
    ensures
        index_of_char(a + seq![c] + b, c) == a.len(),
        (a + seq![c] + b).take(a.len() as int) == a,
        (a + seq![c] + b).skip(a.len() as int + 1) == b,
{
    let s = a + seq![c] + b;
    law_first_place_of_a_character(s, c);
    let n = index_of_char(s, c);
    assert(s[a.len() as int] == c);
    if n < a.len() {
        assert(a[n] == s[n]);
    }
    assert(s.take(a.len() as int) =~= a);
    assert(s.skip(a.len() as int + 1) =~= b);
}

proof fn lemma_index_absent(a: Seq<char>, c: char)
    requires
        !a.contains(c),
    ensures
        index_of_char(a, c) == a.len(),
{
    law_first_place_of_a_character(a, c);
}

/// Splitting cuts a text at every separator: what stands before the first one is a
/// piece, and what stands behind it is split on.
pub proof fn law_pieces_stand_between_separators(a: Seq<char>, c: char, b: Seq<char>)
    requires
        !a.contains(c),
    ensures
        pieces(a, c) == seq![a],
        pieces(a + seq![c] + b, c) == seq![a] + pieces(b, c),
{
    lemma_index_absent(a, c);
    lemma_index_behind(a, c, b);
}

/// A line without the carriage returns at its end, `most` of them at most.
pub open spec fn chomped(line: Seq<char>, full: Seq<char>, most: int) -> bool {
    &&& line.len() <= full.len() <= line.len() + most
    &&& full.take(line.len() as int) == line
    &&& forall|i: int| line.len() <= i < full.len() ==> #[trigger] full[i] == '\r'
    &&& full.len() < line.len() + most && line.len() > 0 ==> line.last() != '\r'
}

/// A file is cut into lines at its line feeds. Of a line that a line feed ends, up
/// to two carriage returns are dropped, and up to one of a last line without one. A
/// line feed at the very end begins no further line.
pub proof fn law_lines_end_at_line_feeds(a: Seq<char>, b: Seq<char>)
    requires
        !a.contains('\n'),
    ensures
        a.len() == 0 ==> lines(a).len() == 0,
        a.len() > 0 ==> lines(a).len() == 1 && chomped(lines(a)[0], a, 1),
        lines(a + seq!['\n'] + b).len() == 1 + lines(b).len(),
        chomped(lines(a + seq!['\n'] + b)[0], a, 2),
        lines(a + seq!['\n'] + b).skip(1) == lines(b),
{
    let s = a + seq!['\n'] + b;
    lemma_index_absent(a, '\n');
    lemma_index_behind(a, '\n', b);
    let once = without_last(a, '\r');
    let twice = without_last(once, '\r');
    assert(lines(s) == seq![twice] + lines(b));
    assert(lines(s).skip(1) =~= lines(b));
    assert(a.take(a.len() as int) =~= a);
    assert(a.take(once.len() as int) =~= once);
    assert(a.take(twice.len() as int) =~= twice);
}

/// Searching finds the first place where a text occurs in another, and only fails
/// where it occurs nowhere.
pub proof fn law_find_gives_the_first_place(s: Seq<char>, pat: Seq<char>)
    ensures
        match find(s, pat) {
            Some(n) => {
                &&& 0 <= n && n + pat.len() <= s.len()
                &&& s.subrange(n, n + pat.len()) == pat
                &&& forall|i: int|
                    0 <= i < n ==> #[trigger] s.subrange(i, i + pat.len()) != pat
            },
            None => forall|i: int|
                0 <= i && i + pat.len() <= s.len() ==> #[trigger] s.subrange(i, i + pat.len())
                    != pat,
        },
    decreases s.len(),
{
    if s.len() >= pat.len() {
        assert(s.take(pat.len() as int) =~= s.subrange(0, 0int + pat.len()));
    }
    if !starts_with(s, pat) && s.len() > 0 {
        let rest = s.skip(1);
        law_find_gives_the_first_place(rest, pat);
        assert forall|i: int| 1 <= i && i + pat.len() <= s.len() implies #[trigger] s.subrange(
            i,
            i + pat.len(),
        ) == rest.subrange(i - 1, i - 1 + pat.len()) by {
            assert(s.subrange(i, i + pat.len()) =~= rest.subrange(i - 1, i - 1 + pat.len()));
        }
        if let Some(n) = find(s, pat) {
            assert(s.subrange(n, n + pat.len()) == pat);
            assert forall|i: int| 0 <= i < n implies #[trigger] s.subrange(i, i + pat.len())
                != pat by {
                if i > 0 {
                    assert(rest.subrange(i - 1, i - 1 + pat.len()) != pat);
                }
            }
        } else {
            assert forall|i: int|
                0 <= i && i + pat.len() <= s.len() implies #[trigger] s.subrange(
                i,
                i + pat.len(),
            ) != pat by {
                if i > 0 {
                    assert(rest.subrange(i - 1, i - 1 + pat.len()) != pat);
                }
            }
        }
    }
}

/// A number is written with the digits of its decimal notation, the last digit being
/// what is left over by ten, and reads back as itself, if it is not too large.
pub proof fn law_decimal_reads_back(n: nat, max: nat)
    ensures
        decimal(n).len() >= 1,
        decimal(n).last() as u32 == 0x30 + n % 10,
        n < 10 ==> decimal(n).len() == 1,
        n >= 10 ==> decimal(n).drop_last() == decimal(n / 10),
        forall|i: int|
            0 <= i < decimal(n).len() ==> 0x30 <= #[trigger] decimal(n)[i] as u32 <= 0x39,
        decimal_value(decimal(n)) == n,
        number(decimal(n), max) == (if n <= max {
            Some(n)
        } else {
            None
        }),
        u32_text(decimal(n)) == (if n <= 0xffff_ffff {
            Some(n)
        } else {
            None
        }),
        u32_text(seq!['+'] + decimal(n)) == u32_text(decimal(n)),
    decreases n,
{
    reveal_with_fuel(decimal_value, 2);
    if n >= 10 {
        law_decimal_reads_back(n / 10, max);
        assert(decimal(n).drop_last() =~= decimal(n / 10));
    }
    let s = decimal(n);
    assert(s[0] as u32 >= 0x30);
    assert((seq!['+'] + s).skip(1) =~= s);
}

/// Only decimal digits, with a plus sign before them at most, are a number.
pub proof fn law_other_characters_make_no_number(s: Seq<char>, i: int, max: nat)
    requires
        0 <= i < s.len(),
        !(0x30 <= s[i] as u32 <= 0x39),
    ensures
        number(s, max) is None,
        i > 0 || s[i] != '+' ==> u32_text(s) is None,
{
    if s[0] == '+' && i > 0 {
        assert(s.skip(1)[i - 1] == s[i]);
    }
}

/// What a text starts with in the way of spaces: all of them, and no more.
pub proof fn law_leading_spaces_are_all_there_are(s: Seq<char>)
    ensures
        ({
            let n = leading_spaces(s);
            &&& 0 <= n <= s.len()
            &&& forall|i: int| 0 <= i < n ==> space(#[trigger] s[i])
            &&& n < s.len() ==> !space(s[n])
        }),
    decreases s.len(),
{
    if s.len() > 0 && space(s[0]) {
        law_leading_spaces_are_all_there_are(s.skip(1));
        let n = leading_spaces(s.skip(1));
        assert forall|i: int| 0 <= i < n + 1 implies space(#[trigger] s[i]) by {
            if i > 0 {
                assert(s.skip(1)[i - 1] == s[i]);
            }
        }
    }
}

/// A text without the spaces at its end: a beginning of it that ends in no space,
/// with nothing but spaces behind.
pub proof fn law_trailing_spaces_go(s: Seq<char>)
    ensures
        ({
            let t = trimmed_end(s);
            &&& t.len() <= s.len()
            &&& t == s.take(t.len() as int)
            &&& t.len() > 0 ==> !space(t.last())
            &&& forall|i: int| t.len() <= i < s.len() ==> space(#[trigger] s[i])
        }),
    decreases s.len(),
{
    if s.len() > 0 && space(s.last()) {
        law_trailing_spaces_go(s.drop_last());
        let t = trimmed_end(s.drop_last());
        assert(s.drop_last().take(t.len() as int) =~= s.take(t.len() as int));
        assert forall|i: int| t.len() <= i < s.len() implies space(#[trigger] s[i]) by {
            if i < s.len() - 1 {
                assert(s.drop_last()[i] == s[i]);
            }
        }
    } else {
        assert(s.take(s.len() as int) =~= s);
    }
}

/// A text without the whitespace around it: a part of it that neither starts nor
/// ends in whitespace, with nothing but whitespace before and behind.
pub proof fn law_whitespace_around_goes(s: Seq<char>) -> (from: int)
    ensures
        ({
            let t = trimmed(s);
            &&& 0 <= from && from + t.len() <= s.len()
            &&& t == s.subrange(from, from + t.len())
            &&& t.len() > 0 ==> !white_space(t[0]) && !white_space(t.last())
            &&& forall|i: int|
                0 <= i < from || from + t.len() <= i < s.len() ==> white_space(#[trigger] s[i])
        }),
    decreases s.len(),
{
    let t = trimmed(s);
    if s.len() == 0 {
        assert(s.subrange(0, 0) =~= s);
        0
    } else if white_space(s[0]) {
        let rest = s.skip(1);
        let at = law_whitespace_around_goes(rest);
        assert(rest.subrange(at, at + t.len()) =~= s.subrange(at + 1, at + 1 + t.len()));
        assert forall|i: int|
            0 <= i < at + 1 || at + 1 + t.len() <= i < s.len() implies white_space(
            #[trigger] s[i],
        ) by {
            if i > 0 {
                assert(rest[i - 1] == s[i]);
            }
        }
        at + 1
    } else if white_space(s.last()) {
        let rest = s.drop_last();
        let at = law_whitespace_around_goes(rest);
        assert(rest.subrange(at, at + t.len()) =~= s.subrange(at, at + t.len()));
        assert forall|i: int|
            0 <= i < at || at + t.len() <= i < s.len() implies white_space(#[trigger] s[i]) by {
            if i < s.len() - 1 {
                assert(rest[i] == s[i]);
            }
        }
        at
    } else {
        assert(s.subrange(0, s.len() as int) =~= s);
        0
    }
}

/// The ASCII spaces are space, tab, line feed, form feed and carriage return; every
/// one of them is whitespace.
pub proof fn law_what_is_a_space(c: char)
    ensures
        space(c) <==> c as u32 == 32 || c as u32 == 9 || c as u32 == 10 || c as u32 == 12
            || c as u32 == 13,
        space(c) ==> white_space(c),
        0x21 <= c as u32 <= 0x7e ==> !white_space(c),
{
}

/// Two places in a text that do not overlap and where another text stands count as two
/// at least; and where it stands nowhere it counts as none.
pub proof fn law_separate_occurrences_count(s: Seq<char>, pat: Seq<char>, i: int, j: int)
    requires
        pat.len() > 0,
        0 <= i,
        i + pat.len() <= j,
        j + pat.len() <= s.len(),
        s.subrange(i, i + pat.len()) == pat,
        s.subrange(j, j + pat.len()) == pat,
    ensures
        occurrences(s, pat) >= 2,
    decreases s.len(),
{
    let n = pat.len() as int;
    if starts_with(s, pat) {
        let rest = s.skip(n);
        assert(rest.subrange(j - n, j) =~= s.subrange(j, j + n));
        law_find_gives_the_first_place(rest, pat);
        if find(rest, pat) is None {
            assert(rest.subrange(j - n, j - n + pat.len()) != pat);
        }
        lemma_find_occurs(rest, pat);
    } else {
        if i == 0 {
            assert(s.take(n) =~= s.subrange(0, n));
        }
        let rest = s.skip(1);
        assert(rest.subrange(i - 1, i - 1 + n) =~= s.subrange(i, i + n));
        assert(rest.subrange(j - 1, j - 1 + n) =~= s.subrange(j, j + n));
        law_separate_occurrences_count(rest, pat, i - 1, j - 1);
    }
}

} // verus!
