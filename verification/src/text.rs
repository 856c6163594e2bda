//! Text as sequences of characters: the order in which names are sorted, and
//! the small pieces that a rendered line is put together from.

use std::cmp::Ordering;
use vstd::prelude::*;
use vstd::std_specs::iter::IteratorSpec;

verus! {

/// `a` comes no later than `b` when texts are compared character by
/// character, by code point, and a proper prefix comes before its extensions.
pub open spec fn text_le(a: Seq<char>, b: Seq<char>) -> bool
    decreases a.len(),
{
    if a.len() == 0 {
        true
    } else if b.len() == 0 {
        false
    } else if a[0] != b[0] {
        (a[0] as u32) < (b[0] as u32)
    } else {
        text_le(a.drop_first(), b.drop_first())
    }
}

/// `a` comes strictly before `b`.
pub open spec fn text_lt(a: Seq<char>, b: Seq<char>) -> bool {
    text_le(a, b) && a != b
}

/// Two texts that each come no later than the other are the same text.
pub proof fn law_text_le_antisymmetric(a: Seq<char>, b: Seq<char>)
    requires
        text_le(a, b),
        text_le(b, a),
    ensures
        a == b,
    decreases a.len(),
{
    if a.len() == 0 {
        assert(a =~= b);
    } else {
        law_text_le_antisymmetric(a.drop_first(), b.drop_first());
        assert(a =~= seq![a[0]] + a.drop_first());
        assert(b =~= seq![b[0]] + b.drop_first());
    }
}

/// Different characters have different code points.
proof fn lemma_code_points_differ(c: char, d: char)
    requires
        c != d,
    ensures
        c as u32 != d as u32,
{
}

/// Of any two texts one comes no later than the other.
pub proof fn law_text_le_total(a: Seq<char>, b: Seq<char>)
    ensures
        text_le(a, b) || text_le(b, a),
    decreases a.len(),
{
    if a.len() > 0 && b.len() > 0 {
        if a[0] == b[0] {
            law_text_le_total(a.drop_first(), b.drop_first());
        } else {
            lemma_code_points_differ(a[0], b[0]);
        }
    }
}

/// A text that comes no later than a second, which comes no later than a
/// third, comes no later than the third.
pub proof fn law_text_le_transitive(a: Seq<char>, b: Seq<char>, c: Seq<char>)
    requires
        text_le(a, b),
        text_le(b, c),
    ensures
        text_le(a, c),
    decreases a.len(),
{
    if a.len() > 0 && a[0] == b[0] && b[0] == c[0] {
        law_text_le_transitive(a.drop_first(), b.drop_first(), c.drop_first());
    }
}

fn code_point(c: char) -> (code: u32)
    ensures
        code == c as u32,
{
    c as u32
}

/// Compares two texts character by character: `Less` where `a` comes
/// strictly before `b`, `Greater` where it comes strictly after, `Equal`
/// where the two are the same text.
pub fn compare_text(a: &str, b: &str) -> (order: Ordering)
    ensures
        (order == Ordering::Less) == text_lt(a@, b@),
        (order == Ordering::Equal) == (a@ == b@),
        (order == Ordering::Greater) == text_lt(b@, a@),
{
    let mut left = a.chars();
    let mut right = b.chars();
    let ghost mut i: int = 0;
    proof {
        assert(a@.skip(0) =~= a@);
        assert(b@.skip(0) =~= b@);
    }
    loop
        invariant
            0 <= i <= a@.len(),
            i <= b@.len(),
            left.remaining() == a@.skip(i),
            right.remaining() == b@.skip(i),
            text_le(a@, b@) == text_le(a@.skip(i), b@.skip(i)),
            text_le(b@, a@) == text_le(b@.skip(i), a@.skip(i)),
            (a@ == b@) == (a@.skip(i) == b@.skip(i)),
        decreases a@.len() - i,
    {
        let ghost rest_a = a@.skip(i);
        let ghost rest_b = b@.skip(i);
        let x = left.next();
        let y = right.next();
        proof {
            if rest_a.len() > 0 {
                assert(rest_a.drop_first() =~= a@.skip(i + 1));
            }
            if rest_b.len() > 0 {
                assert(rest_b.drop_first() =~= b@.skip(i + 1));
            }
            if rest_a.len() > 0 && rest_b.len() > 0 && rest_a[0] == rest_b[0] {
                if a@.skip(i + 1) == b@.skip(i + 1) {
                    assert(rest_a =~= seq![rest_a[0]] + rest_a.drop_first());
                    assert(rest_b =~= seq![rest_b[0]] + rest_b.drop_first());
                }
            }
            if rest_a.len() == 0 && rest_b.len() == 0 {
                assert(rest_a =~= rest_b);
            }
        }
        match (x, y) {
            (None, None) => {
                return Ordering::Equal;
            },
            (None, Some(_)) => {
                return Ordering::Less;
            },
            (Some(_), None) => {
                return Ordering::Greater;
            },
            (Some(c), Some(d)) => {
                if c != d {
                    proof {
                        lemma_code_points_differ(c, d);
                    }
                    if code_point(c) < code_point(d) {
                        return Ordering::Less;
                    } else {
                        return Ordering::Greater;
                    }
                }
            },
        }
        proof {
            i = i + 1;
        }
    }
}

/// `n` spaces.
pub open spec fn blanks(n: nat) -> Seq<char> {
    Seq::new(n, |i: int| ' ')
}

/// `text`, followed by as many spaces as it takes to fill `width` columns.
/// A text that is already that wide is left as it is.
pub open spec fn left_aligned(text: Seq<char>, width: nat) -> Seq<char> {
    if text.len() < width {
        text + blanks((width - text.len()) as nat)
    } else {
        text
    }
}

/// The character for the decimal digit `d`.
pub open spec fn digit(d: nat) -> char {
    if d == 0 {
        '0'
    } else if d == 1 {
        '1'
    } else if d == 2 {
        '2'
    } else if d == 3 {
        '3'
    } else if d == 4 {
        '4'
    } else if d == 5 {
        '5'
    } else if d == 6 {
        '6'
    } else if d == 7 {
        '7'
    } else if d == 8 {
        '8'
    } else {
        '9'
    }
}

/// `n` written in base ten, without leading zeros.
pub open spec fn decimal(n: nat) -> Seq<char>
    decreases n,
{
    if n < 10 {
        seq![digit(n)]
    } else {
        decimal(n / 10).push(digit(n % 10))
    }
}

/// Appends `n` spaces to `out`.
pub fn push_blanks(out: &mut String, n: usize)
    ensures
        final(out)@ == old(out)@ + blanks(n as nat),
{
    let mut i: usize = 0;
    while i < n
        invariant
            i <= n,
            out@ == old(out)@ + blanks(i as nat),
        decreases n - i,
    {
        proof {
            reveal_strlit(" ");
        }
        out.append(" ");
        i += 1;
        assert(out@ =~= old(out)@ + blanks(i as nat));
    }
    assert(out@ =~= old(out)@ + blanks(n as nat));
}

/// Appends `text` to `out` and pads it with spaces to `width` columns.
pub fn push_left_aligned(out: &mut String, text: &str, width: usize)
    ensures
        final(out)@ == old(out)@ + left_aligned(text@, width as nat),
{
    out.append(text);
    let len = text.unicode_len();
    if len < width {
        push_blanks(out, width - len);
        assert(out@ =~= old(out)@ + left_aligned(text@, width as nat));
    }
}

fn digit_text(d: u32) -> (s: &'static str)
    requires
        d < 10,
    ensures
        s@ == seq![digit(d as nat)],
{
    proof {
        reveal_strlit("0");
        reveal_strlit("1");
        reveal_strlit("2");
        reveal_strlit("3");
        reveal_strlit("4");
        reveal_strlit("5");
        reveal_strlit("6");
        reveal_strlit("7");
        reveal_strlit("8");
        reveal_strlit("9");
    }
    let s = if d == 0 {
        "0"
    } else if d == 1 {
        "1"
    } else if d == 2 {
        "2"
    } else if d == 3 {
        "3"
    } else if d == 4 {
        "4"
    } else if d == 5 {
        "5"
    } else if d == 6 {
        "6"
    } else if d == 7 {
        "7"
    } else if d == 8 {
        "8"
    } else {
        "9"
    };
    assert(s@ =~= seq![digit(d as nat)]);
    s
}

/// Appends `n`, written in base ten, to `out`.
pub fn push_decimal(out: &mut String, n: u32)
    ensures
        final(out)@ == old(out)@ + decimal(n as nat),
    decreases n,
{
    if n >= 10 {
        push_decimal(out, n / 10);
    }
    out.append(digit_text(n % 10));
    assert(out@ =~= old(out)@ + decimal(n as nat));
}

} // verus!
