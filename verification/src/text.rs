//! Rendering of numbers and searching of text, on the characters of a string.

use vstd::prelude::*;

verus! {

/// `String::push` appends one character at the end of the string.
pub assume_specification[ String::push ](s: &mut String, c: char)
    ensures
        final(s)@ == old(s)@.push(c),
;

// ── Numbers ─────────────────────────────────────────────────────────────────

/// The digit that stands for `d`, in a base of at most sixteen.
pub open spec fn digit(d: int) -> char {
    if d < 10 {
        ('0' as int + d) as char
    } else {
        ('a' as int + d - 10) as char
    }
}

/// `n` written in `base`, without leading zeros (zero is the single digit 0).
pub open spec fn digits(n: nat, base: nat) -> Seq<char>
    decreases n,
{
    if base < 2 || n < base {
        seq![digit(n as int)]
    } else {
        proof {
            assert(n / base < n) by (nonlinear_arith)
                requires
                    2 <= base <= n,
            ;
        }
        digits(n / base, base).push(digit((n % base) as int))
    }
}

/// `n` in decimal.
pub open spec fn dec(n: nat) -> Seq<char> {
    digits(n, 10)
}

/// `x` in decimal, with a minus sign when it is negative.
pub open spec fn dec_signed(x: int) -> Seq<char> {
    if x < 0 {
        seq!['-'] + dec((-x) as nat)
    } else {
        dec(x as nat)
    }
}

/// `x` in decimal, always with its sign (zero is positive).
pub open spec fn dec_plus(x: int) -> Seq<char> {
    if x < 0 {
        dec_signed(x)
    } else {
        seq!['+'] + dec(x as nat)
    }
}

/// `n` in lower-case hexadecimal behind the prefix `0x`.
pub open spec fn hex(n: nat) -> Seq<char> {
    seq!['0', 'x'] + digits(n, 16)
}

/// The lowest `width` hexadecimal digits of `n`, leading zeros included.
pub open spec fn hex_fixed(n: nat, width: nat) -> Seq<char>
    decreases width,
{
    if width == 0 {
        seq![]
    } else {
        hex_fixed(n / 16, (width - 1) as nat).push(digit((n % 16) as int))
    }
}

/// The character of one digit.
fn digit_char(d: u64) -> (c: char)
    requires
        d < 16,
    ensures
        c == digit(d as int),
{
    match d {
        0 => '0',
        1 => '1',
        2 => '2',
        3 => '3',
        4 => '4',
        5 => '5',
        6 => '6',
        7 => '7',
        8 => '8',
        9 => '9',
        10 => 'a',
        11 => 'b',
        12 => 'c',
        13 => 'd',
        14 => 'e',
        _ => 'f',
    }
}

/// Appends `n` in `base` to `s`.
fn push_digits(s: &mut String, n: u64, base: u64)
    requires
        2 <= base <= 16,
    ensures
        final(s)@ == old(s)@ + digits(n as nat, base as nat),
    decreases n,
{
    if n < base {
        s.push(digit_char(n));
    } else {
        proof {
            assert(n / base < n) by (nonlinear_arith)
                requires
                    2 <= base <= n,
            ;
        }
        push_digits(s, n / base, base);
        s.push(digit_char(n % base));
    }
}

/// Appends `n` in decimal to `s`.
pub fn push_dec(s: &mut String, n: u64)
    ensures
        final(s)@ == old(s)@ + dec(n as nat),
{
    push_digits(s, n, 10);
}

/// Appends `x` in decimal to `s`.
pub fn push_signed(s: &mut String, x: i64)
    ensures
        final(s)@ == old(s)@ + dec_signed(x as int),
{
    if x < 0 {
        s.push('-');
        let magnitude: u64 = (-(x + 1)) as u64 + 1;
        push_dec(s, magnitude);
    } else {
        push_dec(s, x as u64);
    }
}

/// Appends `x` in decimal to `s`, always with a sign.
pub fn push_plus(s: &mut String, x: i64)
    ensures
        final(s)@ == old(s)@ + dec_plus(x as int),
{
    if x < 0 {
        push_signed(s, x);
    } else {
        s.push('+');
        push_dec(s, x as u64);
    }
}

/// Appends `n` in hexadecimal, behind `0x`, to `s`.
pub fn push_hex(s: &mut String, n: u64)
    ensures
        final(s)@ == old(s)@ + hex(n as nat),
{
    s.push('0');
    s.push('x');
    push_digits(s, n, 16);
}

/// Appends the lowest `width` hexadecimal digits of `n` to `s`.
pub fn push_hex_fixed(s: &mut String, n: u64, width: u64)
    ensures
        final(s)@ == old(s)@ + hex_fixed(n as nat, width as nat),
    decreases width,
{
    if width > 0 {
        push_hex_fixed(s, n / 16, width - 1);
        s.push(digit_char(n % 16));
    }
}

// ── Characters of a string ──────────────────────────────────────────────────

/// The characters of a string.
pub fn chars_of(s: &str) -> (v: Vec<char>)
    ensures
        v@ == s@,
{
    let mut v: Vec<char> = Vec::new();
    for c in it: s.chars()
        invariant
            it.seq() == s@,
            v@ == s@.take(it.index()),
    {
        v.push(c);
        assert(s@.take(it.index() + 1) == s@.take(it.index()).push(s@[it.index()]));
    }
    v
}

/// The string of some characters.
pub fn string_of(v: &[char]) -> (s: String)
    ensures
        s@ == v@,
{
    let mut s: String = String::new();
    let mut i: usize = 0;
    while i < v.len()
        invariant
            i <= v@.len(),
            s@ == v@.take(i as int),
        decreases v@.len() - i,
    {
        s.push(v[i]);
        assert(v@.take(i + 1) == v@.take(i as int).push(v@[i as int]));
        i = i + 1;
    }
    assert(v@.take(i as int) == v@);
    s
}

/// The characters `from..to`.
pub fn cut(v: &[char], from: usize, to: usize) -> (r: Vec<char>)
    requires
        from <= to <= v@.len(),
    ensures
        r@ == v@.subrange(from as int, to as int),
{
    let mut r: Vec<char> = Vec::new();
    let mut i: usize = from;
    while i < to
        invariant
            from <= i <= to <= v@.len(),
            r@ == v@.subrange(from as int, i as int),
        decreases to - i,
    {
        r.push(v[i]);
        assert(v@.subrange(from as int, i + 1) == v@.subrange(from as int, i as int).push(
            v@[i as int],
        ));
        i = i + 1;
    }
    r
}

/// Whether two texts are the same.
pub fn same_text(a: &[char], b: &[char]) -> (same: bool)
    ensures
        same == (a@ == b@),
{
    if a.len() != b.len() {
        return false;
    }
    let mut i: usize = 0;
    while i < a.len()
        invariant
            a@.len() == b@.len(),
            i <= a@.len(),
            forall|k: int| 0 <= k < i ==> a@[k] == b@[k],
        decreases a@.len() - i,
    {
        if a[i] != b[i] {
            return false;
        }
        i = i + 1;
    }
    assert(a@ =~= b@);
    true
}

/// Whether two strings are the same.
pub fn same_str(a: &str, b: &str) -> (same: bool)
    ensures
        same == (a@ == b@),
{
    same_text(&chars_of(a), &chars_of(b))
}

// ── Search ──────────────────────────────────────────────────────────────────

/// `needle` stands in `hay` at index `i`.
pub open spec fn occurs_at(hay: Seq<char>, needle: Seq<char>, i: int) -> bool {
    0 <= i && i + needle.len() <= hay.len() && hay.subrange(i, i + needle.len()) == needle
}

/// `needle` stands somewhere in `hay`.
pub open spec fn has(hay: Seq<char>, needle: Seq<char>) -> bool {
    exists|i: int| #[trigger] occurs_at(hay, needle, i)
}

/// `hay` begins with `needle`.
pub open spec fn begins(hay: Seq<char>, needle: Seq<char>) -> bool {
    occurs_at(hay, needle, 0)
}

/// The first index from `from` on at which `needle` stands.
pub open spec fn find_from(hay: Seq<char>, needle: Seq<char>, from: int) -> Option<int>
    decreases hay.len() - from + 1,
{
    if from < 0 || from + needle.len() > hay.len() {
        None
    } else if occurs_at(hay, needle, from) {
        Some(from)
    } else {
        find_from(hay, needle, from + 1)
    }
}

fn stands_at(hay: &[char], needle: &[char], i: usize) -> (b: bool)
    ensures
        b == occurs_at(hay@, needle@, i as int),
{
    if needle.len() > hay.len() || i > hay.len() - needle.len() {
        return false;
    }
    let mut k: usize = 0;
    while k < needle.len()
        invariant
            i + needle@.len() <= hay@.len() <= usize::MAX,
            k <= needle@.len(),
            forall|j: int| 0 <= j < k ==> hay@[i + j] == needle@[j],
        decreases needle@.len() - k,
    {
        if hay[i + k] != needle[k] {
            assert(hay@.subrange(i as int, i + needle@.len())[k as int] != needle@[k as int]);
            return false;
        }
        k = k + 1;
    }
    assert(hay@.subrange(i as int, i + needle@.len()) =~= needle@);
    true
}

/// The first index from `from` on at which `needle` stands.
pub fn find(hay: &[char], needle: &[char], from: usize) -> (r: Option<usize>)
    ensures
        match r {
            Some(i) => find_from(hay@, needle@, from as int) == Some(i as int) && occurs_at(
                hay@,
                needle@,
                i as int,
            ) && i >= from,
            None => find_from(hay@, needle@, from as int) is None,
        },
{
    if needle.len() > hay.len() {
        return None;
    }
    let last: usize = hay.len() - needle.len();
    let mut i: usize = from;
    while i <= last
        invariant
            from <= i,
            last + needle@.len() == hay@.len() <= usize::MAX,
            find_from(hay@, needle@, i as int) == find_from(hay@, needle@, from as int),
        decreases last + 1 - i,
    {
        if stands_at(hay, needle, i) {
            return Some(i);
        }
        if i == last {
            assert(find_from(hay@, needle@, i + 1) is None);
            return None;
        }
        i = i + 1;
    }
    None
}

/// What [`find_from`] misses is not there.
pub proof fn lemma_find_none(hay: Seq<char>, needle: Seq<char>, from: int)
    requires
        from >= 0,
        find_from(hay, needle, from) is None,
    ensures
        forall|i: int| i >= from ==> !#[trigger] occurs_at(hay, needle, i),
    decreases hay.len() - from + 1,
{
    if from + needle.len() <= hay.len() {
        lemma_find_none(hay, needle, from + 1);
    }
}

/// Whether `needle` stands somewhere in `hay`.
pub fn contains_str(hay: &[char], needle: &str) -> (b: bool)
    ensures
        b == has(hay@, needle@),
{
    match find(hay, &chars_of(needle), 0) {
        Some(_) => true,
        None => {
            proof {
                lemma_find_none(hay@, needle@, 0);
            }
            false
        },
    }
}

/// Whether `hay` begins with `needle`.
pub fn begins_with(hay: &[char], needle: &str) -> (b: bool)
    ensures
        b == begins(hay@, needle@),
{
    stands_at(hay, &chars_of(needle), 0)
}

/// The last index up to `i` at which `needle` stands.
pub open spec fn find_back(hay: Seq<char>, needle: Seq<char>, i: int) -> Option<int>
    decreases i + 1,
{
    if i < 0 {
        None
    } else if occurs_at(hay, needle, i) {
        Some(i)
    } else {
        find_back(hay, needle, i - 1)
    }
}

/// The last index at which `needle` stands.
pub fn find_last(hay: &[char], needle: &[char]) -> (r: Option<usize>)
    ensures
        match r {
            Some(i) => find_back(hay@, needle@, hay@.len() as int) == Some(i as int) && occurs_at(
                hay@,
                needle@,
                i as int,
            ),
            None => find_back(hay@, needle@, hay@.len() as int) is None,
        },
{
    let mut i: usize = hay.len();
    while i > 0
        invariant
            i <= hay@.len(),
            find_back(hay@, needle@, i as int) == find_back(hay@, needle@, hay@.len() as int),
        decreases i,
    {
        if stands_at(hay, needle, i) {
            return Some(i);
        }
        i = i - 1;
    }
    if stands_at(hay, needle, 0) {
        return Some(0);
    }
    assert(find_back(hay@, needle@, -1) is None);
    None
}

// ── White space ─────────────────────────────────────────────────────────────

/// Unicode white space.
pub open spec fn is_space(c: char) -> bool {
    let n = c as int;
    ||| 0x9 <= n <= 0xd
    ||| n == 0x20
    ||| n == 0x85
    ||| n == 0xa0
    ||| n == 0x1680
    ||| 0x2000 <= n <= 0x200a
    ||| n == 0x2028
    ||| n == 0x2029
    ||| n == 0x202f
    ||| n == 0x205f
    ||| n == 0x3000
}

fn space(c: char) -> (b: bool)
    ensures
        b == is_space(c),
{
    let n: u32 = c as u32;
    (0x9 <= n && n <= 0xd) || n == 0x20 || n == 0x85 || n == 0xa0 || n == 0x1680 || (0x2000 <= n
        && n <= 0x200a) || n == 0x2028 || n == 0x2029 || n == 0x202f || n == 0x205f || n == 0x3000
}

/// The text without leading white space.
pub open spec fn trim_start(s: Seq<char>) -> Seq<char>
    decreases s.len(),
{
    if s.len() > 0 && is_space(s[0]) { trim_start(s.drop_first()) } else { s }
}

/// The text without trailing white space.
pub open spec fn trim_end(s: Seq<char>) -> Seq<char>
    decreases s.len(),
{
    if s.len() > 0 && is_space(s.last()) { trim_end(s.drop_last()) } else { s }
}

/// The text without white space at its ends.
pub open spec fn trim(s: Seq<char>) -> Seq<char> {
    trim_end(trim_start(s))
}

/// The index behind the white space that begins at `from`.
pub fn skip_space(v: &[char], from: usize) -> (i: usize)
    requires
        from <= v@.len(),
    ensures
        from <= i <= v@.len(),
        trim_start(v@.skip(from as int)) == v@.skip(i as int),
{
    let mut i: usize = from;
    while i < v.len() && space(v[i])
        invariant
            from <= i <= v@.len(),
            trim_start(v@.skip(from as int)) == trim_start(v@.skip(i as int)),
        decreases v@.len() - i,
    {
        assert(v@.skip(i as int).drop_first() == v@.skip(i + 1));
        i = i + 1;
    }
    i
}

/// The text without leading white space.
pub fn trimmed_start(v: &[char]) -> (r: Vec<char>)
    ensures
        r@ == trim_start(v@),
{
    let i: usize = skip_space(v, 0);
    assert(v@.skip(0) == v@);
    cut(v, i, v.len())
}

/// The text without white space at its ends.
pub fn trimmed(v: &[char]) -> (r: Vec<char>)
    ensures
        r@ == trim(v@),
{
    let mut r: Vec<char> = trimmed_start(v);
    while r.len() > 0 && space(r[r.len() - 1])
        invariant
            trim_end(r@) == trim(v@),
        decreases r@.len(),
    {
        let ghost before = r@;
        r.pop();
        assert(r@ == before.drop_last());
    }
    r
}

// ── Pieces ──────────────────────────────────────────────────────────────────

/// What separates the pieces of a text.
#[derive(Clone, Copy, PartialEq, Eq, Structural)]
pub enum Separator {
    LineFeed,
    WhiteSpace,
}

impl Separator {
    pub open spec fn is(self, c: char) -> bool {
        match self {
            Separator::LineFeed => c == '\n',
            Separator::WhiteSpace => is_space(c),
        }
    }

    fn separates(self, c: char) -> (b: bool)
        ensures
            b == self.is(c),
    {
        match self {
            Separator::LineFeed => c == '\n',
            Separator::WhiteSpace => space(c),
        }
    }
}

/// The pieces between separators; one more than there are separators.
pub open spec fn pieces(s: Seq<char>, sep: Separator) -> Seq<Seq<char>>
    decreases s.len(),
{
    if s.len() == 0 {
        seq![seq![]]
    } else {
        let head = pieces(s.drop_last(), sep);
        if sep.is(s.last()) {
            head.push(seq![])
        } else {
            head.drop_last().push(head.last().push(s.last()))
        }
    }
}

/// The texts of a list.
pub open spec fn texts(v: Seq<Vec<char>>) -> Seq<Seq<char>> {
    v.map_values(|x: Vec<char>| x@)
}

/// There is always a last piece.
pub proof fn lemma_pieces_nonempty(s: Seq<char>, sep: Separator)
    ensures
        pieces(s, sep).len() > 0,
    decreases s.len(),
{
    if s.len() > 0 {
        lemma_pieces_nonempty(s.drop_last(), sep);
    }
}

/// Splits a text.
pub fn split(s: &[char], sep: Separator) -> (out: Vec<Vec<char>>)
    ensures
        texts(out@) == pieces(s@, sep),
{
    let mut out: Vec<Vec<char>> = Vec::new();
    let mut current: Vec<char> = Vec::new();
    let mut i: usize = 0;
    proof {
        assert(s@.take(0) == Seq::<char>::empty());
        assert(texts(out@).push(current@) =~= pieces(s@.take(0), sep));
    }
    while i < s.len()
        invariant
            i <= s@.len(),
            texts(out@).push(current@) == pieces(s@.take(i as int), sep),
        decreases s@.len() - i,
    {
        let c: char = s[i];
        let ghost done = texts(out@);
        let ghost part = current@;
        proof {
            assert(s@.take(i + 1).drop_last() == s@.take(i as int));
            assert(s@.take(i + 1).last() == c);
        }
        if sep.separates(c) {
            let ghost before = out@;
            out.push(current);
            current = Vec::new();
            proof {
                assert(texts(out@) =~= done.push(part));
            }
        } else {
            current.push(c);
            proof {
                assert(done.push(part).drop_last() =~= done);
            }
        }
        i = i + 1;
    }
    assert(s@.take(i as int) == s@);
    let ghost done = texts(out@);
    let ghost part = current@;
    out.push(current);
    assert(texts(out@) =~= done.push(part));
    out
}

// ── Decimal numbers ─────────────────────────────────────────────────────────

pub open spec fn is_digit(c: char) -> bool {
    '0' <= c <= '9'
}

/// The value of a run of digits.
pub open spec fn value_of(s: Seq<char>) -> int
    decreases s.len(),
{
    if s.len() == 0 { 0 } else { 10 * value_of(s.drop_last()) + (s.last() as int - '0' as int) }
}

/// The digits of a number, without its plus sign.
pub open spec fn unsigned_digits(s: Seq<char>) -> Seq<char> {
    if s.len() > 1 && s[0] == '+' { s.drop_first() } else { s }
}

/// The 32-bit number that a text is: digits, with a plus sign or without.
pub open spec fn number(s: Seq<char>) -> Option<u32> {
    let t = unsigned_digits(s);
    if t.len() > 0 && (forall|i: int| 0 <= i < t.len() ==> is_digit(#[trigger] t[i])) && value_of(t)
        <= u32::MAX {
        Some(value_of(t) as u32)
    } else {
        None
    }
}

proof fn lemma_value_monotone(s: Seq<char>, k: int)
    requires
        0 <= k <= s.len(),
        forall|i: int| 0 <= i < s.len() ==> is_digit(#[trigger] s[i]),
    ensures
        0 <= value_of(s.take(k)) <= value_of(s),
    decreases s.len(),
{
    if k == s.len() {
        assert(s.take(k) == s);
        if s.len() > 0 {
            lemma_value_monotone(s.drop_last(), s.len() - 1);
            assert(s.drop_last().take(s.len() - 1) == s.drop_last());
            assert(is_digit(s.last()));
        }
    } else {
        lemma_value_monotone(s.drop_last(), k);
        assert(s.drop_last().take(k) == s.take(k));
        assert(is_digit(s.last()));
    }
}

/// Reads a 32-bit number.
pub fn parse_number(s: &[char]) -> (r: Option<u32>)
    ensures
        r == number(s@),
{
    let start: usize = if s.len() > 1 && s[0] == '+' { 1 } else { 0 };
    let ghost t = unsigned_digits(s@);
    proof {
        assert(t =~= s@.skip(start as int));
    }
    if start == s.len() {
        return None;
    }
    // every character is a digit
    let mut i: usize = start;
    while i < s.len()
        invariant
            start <= i <= s@.len(),
            t == unsigned_digits(s@),
            t == s@.skip(start as int),
            forall|k: int| 0 <= k < i - start ==> is_digit(#[trigger] t[k]),
        decreases s@.len() - i,
    {
        if s[i] < '0' || s[i] > '9' {
            assert(!is_digit(t[i - start]));
            return None;
        }
        i = i + 1;
    }
    let mut value: u32 = 0;
    let mut k: usize = start;
    proof {
        assert(t.take(0) == Seq::<char>::empty());
    }
    while k < s.len()
        invariant
            start <= k <= s@.len(),
            t == unsigned_digits(s@),
            t == s@.skip(start as int),
            forall|j: int| 0 <= j < t.len() ==> is_digit(#[trigger] t[j]),
            value == value_of(t.take(k - start)),
        decreases s@.len() - k,
    {
        proof {
            assert(is_digit(t[k - start]));
        }
        let d: u32 = s[k] as u32 - '0' as u32;
        proof {
            assert(t.take(k - start + 1).drop_last() == t.take(k - start));
            lemma_value_monotone(t, k - start + 1);
        }
        if value > (u32::MAX - d) / 10 {
            return None;
        }
        value = 10 * value + d;
        k = k + 1;
    }
    assert(t.take(k - start) == t);
    Some(value)
}

} // verus!
