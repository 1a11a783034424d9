//! Texts: search, white space, lines and numbers.

use vstd::prelude::*;

use crate::text;
use crate::text::Separator;

verus! {

/// White space and nothing else.
pub open spec fn blank(s: Seq<char>) -> bool {
    forall|i: int| 0 <= i < s.len() ==> #[trigger] text::is_space(s[i])
}

/// Neither end is white space.
pub open spec fn tight(s: Seq<char>) -> bool {
    s.len() > 0 ==> !text::is_space(s[0]) && !text::is_space(s.last())
}

/// No character separates.
pub open spec fn whole(s: Seq<char>, sep: Separator) -> bool {
    forall|i: int| 0 <= i < s.len() ==> !sep.is(#[trigger] s[i])
}

/// A text holds another exactly where it is that text between two others.
pub proof fn holding_is_standing_between(s: Seq<char>, p: Seq<char>)
    ensures
        text::has(s, p) <==> exists|a: Seq<char>, b: Seq<char>| s == #[trigger] (a + p + b),
{
    if text::has(s, p) {
        let i = choose|i: int| #[trigger] text::occurs_at(s, p, i);
        assert(s =~= s.take(i) + p + s.skip(i + p.len())) by {
            assert forall|k: int| 0 <= k < p.len() implies s[i + k] == p[k] by {
                assert(s.subrange(i, i + p.len())[k] == s[i + k]);
            }
        }
    }
    if exists|a: Seq<char>, b: Seq<char>| s == #[trigger] (a + p + b) {
        let (a, b) = choose|a: Seq<char>, b: Seq<char>| s == #[trigger] (a + p + b);
        let n = a.len() as int;
        assert(s.subrange(n, n + p.len()) =~= p);
        assert(text::occurs_at(s, p, a.len() as int));
    }
}

/// A text begins with another exactly where it is that text and a rest.
pub proof fn beginning_is_standing_first(s: Seq<char>, p: Seq<char>)
    ensures
        text::begins(s, p) <==> exists|b: Seq<char>| s == #[trigger] (p + b),
{
    if text::begins(s, p) {
        assert(s =~= p + s.skip(p.len() as int)) by {
            assert forall|k: int| 0 <= k < p.len() implies s[k] == p[k] by {
                assert(s.subrange(0, p.len() as int)[k] == s[k]);
            }
        }
    }
    if exists|b: Seq<char>| s == #[trigger] (p + b) {
        let b = choose|b: Seq<char>| s == #[trigger] (p + b);
        assert(s.subrange(0, p.len() as int) =~= p);
    }
}

pub proof fn lemma_trim_start(a: Seq<char>, t: Seq<char>)
    requires
        blank(a),
        t.len() > 0 ==> !text::is_space(t[0]),
    ensures
        text::trim_start(a + t) == t,
    decreases a.len(),
{
    if a.len() > 0 {
        assert(text::is_space(a[0]));
        assert((a + t)[0] == a[0]);
        assert forall|i: int| 0 <= i < a.drop_first().len() implies #[trigger] text::is_space(
            a.drop_first()[i],
        ) by {
            assert(text::is_space(a[i + 1]));
        }
        assert((a + t).drop_first() =~= a.drop_first() + t);
        lemma_trim_start(a.drop_first(), t);
    } else {
        assert(a + t =~= t);
    }
}

pub proof fn lemma_trim_end(t: Seq<char>, b: Seq<char>)
    requires
        blank(b),
        t.len() > 0 ==> !text::is_space(t.last()),
    ensures
        text::trim_end(t + b) == t,
    decreases b.len(),
{
    if b.len() > 0 {
        assert(text::is_space(b[b.len() - 1]));
        assert((t + b).last() == b.last());
        assert forall|i: int| 0 <= i < b.drop_last().len() implies #[trigger] text::is_space(
            b.drop_last()[i],
        ) by {
            assert(text::is_space(b[i]));
        }
        assert((t + b).drop_last() =~= t + b.drop_last());
        lemma_trim_end(t, b.drop_last());
    } else {
        assert(t + b =~= t);
    }
}

proof fn lemma_trim_blank(a: Seq<char>)
    requires
        blank(a),
    ensures
        text::trim_start(a) == Seq::<char>::empty(),
    decreases a.len(),
{
    lemma_trim_start(a, seq![]);
    assert(a + seq![] =~= a);
}

/// Trimming takes the white space from both ends and nothing else.
pub proof fn trimming_takes_the_blank_ends(a: Seq<char>, t: Seq<char>, b: Seq<char>)
    requires
        blank(a),
        blank(b),
        tight(t),
    ensures
        text::trim(a + t + b) == t,
{
    if t.len() == 0 {
        assert(a + t + b =~= a + b);
        assert forall|i: int| 0 <= i < (a + b).len() implies #[trigger] text::is_space((a + b)[i]) by {
            if i < a.len() {
                assert(text::is_space(a[i]));
            } else {
                assert(text::is_space(b[i - a.len()]));
            }
        }
        lemma_trim_blank(a + b);
        assert(t =~= seq![]);
    } else {
        assert(a + t + b =~= a + (t + b));
        assert((t + b)[0] == t[0]);
        lemma_trim_start(a, t + b);
        lemma_trim_end(t, b);
    }
}

/// One more separator and the text behind it are one more piece.
pub proof fn a_separator_makes_a_piece(s: Seq<char>, c: char, t: Seq<char>, sep: Separator)
    requires
        sep.is(c),
        whole(t, sep),
    ensures
        text::pieces(s.push(c) + t, sep) == text::pieces(s, sep).push(t),
    decreases t.len(),
{
    if t.len() == 0 {
        assert(s.push(c) + t =~= s.push(c));
        assert(s.push(c).drop_last() =~= s);
        assert(t =~= seq![]);
    } else {
        let u = t.drop_last();
        let l = t[t.len() - 1];
        assert(!sep.is(l));
        assert forall|i: int| 0 <= i < u.len() implies !sep.is(#[trigger] u[i]) by {
            assert(!sep.is(t[i]));
        }
        a_separator_makes_a_piece(s, c, u, sep);
        let all = s.push(c) + t;
        assert(all.drop_last() =~= s.push(c) + u);
        assert(all.last() == l);
        let head = text::pieces(s, sep).push(u);
        assert(head.drop_last() =~= text::pieces(s, sep));
        assert(u.push(l) =~= t);
    }
}

/// A text without a separator is one piece.
pub proof fn a_whole_text_is_one_piece(t: Seq<char>, sep: Separator)
    requires
        whole(t, sep),
    ensures
        text::pieces(t, sep) == seq![t],
    decreases t.len(),
{
    if t.len() > 0 {
        let u = t.drop_last();
        assert(!sep.is(t[t.len() - 1]));
        assert forall|i: int| 0 <= i < u.len() implies !sep.is(#[trigger] u[i]) by {
            assert(!sep.is(t[i]));
        }
        a_whole_text_is_one_piece(u, sep);
        assert(u.push(t.last()) =~= t);
        assert(text::pieces(t, sep) =~= seq![t]);
    } else {
        assert(t =~= seq![]);
    }
}

proof fn lemma_value(s: Seq<char>)
    requires
        forall|i: int| 0 <= i < s.len() ==> text::is_digit(#[trigger] s[i]),
    ensures
        text::value_of(s) >= 0,
    decreases s.len(),
{
    if s.len() > 0 {
        let t = s.drop_last();
        assert forall|i: int| 0 <= i < t.len() implies text::is_digit(#[trigger] t[i]) by {
            assert(text::is_digit(s[i]));
        }
        assert(text::is_digit(s[s.len() - 1]));
        lemma_value(t);
    }
}

/// A digit behind a number is its next place.
pub proof fn a_digit_is_the_next_place(s: Seq<char>, c: char)
    requires
        text::number(s) is Some,
        '0' <= c <= '9',
    ensures
        match text::number(s.push(c)) {
            Some(n) => n == 10 * text::number(s)->0 + (c as int - '0' as int),
            None => 10 * text::number(s)->0 + (c as int - '0' as int) > u32::MAX,
        },
{
    let d = text::unsigned_digits(s);
    let e = text::unsigned_digits(s.push(c));
    if s.len() > 1 && s[0] == '+' {
        assert(e =~= d.push(c));
    } else {
        if s[0] == '+' {
            assert(text::is_digit(d[0]));
        }
        assert(e =~= d.push(c));
    }
    assert(e.drop_last() =~= d);
    lemma_value(d);
    assert forall|i: int| 0 <= i < e.len() implies text::is_digit(#[trigger] e[i]) by {
        if i < d.len() {
            assert(text::is_digit(d[i]));
        }
    }
}

/// One digit is its own value, with a plus sign or without; a text that holds
/// anything but digits behind its plus sign is no number.
pub proof fn digits_and_nothing_else(s: Seq<char>, c: char)
    requires
        '0' <= c <= '9',
    ensures
        text::number(seq![c]) == Some((c as int - '0' as int) as u32),
        text::number(seq!['+', c]) == Some((c as int - '0' as int) as u32),
        s.len() == 0 ==> text::number(s) is None,
        s =~= seq!['+'] ==> text::number(s) is None,
        (exists|i: int| 1 <= i < s.len() && !('0' <= #[trigger] s[i] <= '9')) ==> text::number(s)
            is None,
        s.len() > 0 && s[0] != '+' && !('0' <= s[0] <= '9') ==> text::number(s) is None,
{
    assert(seq![c].drop_last() =~= seq![]);
    assert(text::value_of(seq![c]) == c as int - '0' as int) by {
        reveal_with_fuel(text::value_of, 2);
    }
    assert(text::unsigned_digits(seq!['+', c]) =~= seq![c]);
    assert(text::unsigned_digits(seq![c]) == seq![c]);
    let t = text::unsigned_digits(s);
    if s =~= seq!['+'] {
        assert(!text::is_digit(t[0]));
    }
    if exists|i: int| 1 <= i < s.len() && !('0' <= #[trigger] s[i] <= '9') {
        let i = choose|i: int| 1 <= i < s.len() && !('0' <= #[trigger] s[i] <= '9');
        if s[0] == '+' {
            assert(t[i - 1] == s[i]);
            assert(!text::is_digit(t[i - 1]));
        } else {
            assert(!text::is_digit(t[i]));
        }
    }
    if s.len() > 0 && s[0] != '+' && !('0' <= s[0] <= '9') {
        assert(!text::is_digit(t[0]));
    }
}

} // verus!
