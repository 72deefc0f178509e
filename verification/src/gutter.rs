//! The text gutter of a code line in a plain text view: the old and new line
//! numbers right-aligned in four columns, then the sign.

use vstd::prelude::*;
use crate::qt_model::{num, num_text};
use crate::text::{decimal, push_char};

verus! {

/// `n` spaces.
pub open spec fn spaces(n: nat) -> Seq<char> {
    Seq::new(n, |i: int| ' ')
}

/// Text right-aligned in `width` columns (`format!("{:>width$}")`): padded
/// on the left with spaces, never cut.
pub open spec fn pad_left(s: Seq<char>, width: nat) -> Seq<char> {
    if s.len() >= width {
        s
    } else {
        spaces((width - s.len()) as nat) + s
    }
}

/// The gutter: with line numbers, `{old:>4} {new:>4} {sign} ` (a missing
/// number is blank); without, `{sign} `.
pub open spec fn gutter_spec(line_numbers: bool, old: Option<u32>, new: Option<u32>, sign: char) -> Seq<char> {
    if line_numbers {
        pad_left(num_text(old), 4) + seq![' '] + pad_left(num_text(new), 4) + seq![' ', sign, ' ']
    } else {
        seq![sign, ' ']
    }
}

fn push_padded(out: &mut String, s: &String, width: usize)
    ensures
        final(out)@ == old(out)@ + pad_left(s@, width as nat),
{
    let n = s.unicode_len();
    if n < width {
        let mut k: usize = 0;
        while k < width - n
            invariant
                n == s@.len(),
                n < width,
                k <= width - n,
                out@ == old(out)@ + spaces(k as nat),
            decreases width - n - k,
        {
            push_char(out, ' ');
            assert(spaces((k + 1) as nat) =~= spaces(k as nat).push(' '));
            k = k + 1;
        }
    }
    out.append(s.as_str());
    proof {
        if s@.len() >= width {
            assert(pad_left(s@, width as nat) == s@);
        }
    }
    assert(out@ =~= old(out)@ + pad_left(s@, width as nat));
}

/// Builds the gutter of a code line.
pub fn gutter_text(line_numbers: bool, old: Option<u32>, new: Option<u32>, sign: char) -> (s: String)
    ensures
        s@ == gutter_spec(line_numbers, old, new, sign),
{
    let mut s = String::new();
    if line_numbers {
        push_padded(&mut s, &num(old), 4);
        push_char(&mut s, ' ');
        push_padded(&mut s, &num(new), 4);
        push_char(&mut s, ' ');
        push_char(&mut s, sign);
        push_char(&mut s, ' ');
        assert(s@ =~= gutter_spec(line_numbers, old, new, sign));
    } else {
        push_char(&mut s, sign);
        push_char(&mut s, ' ');
        assert(s@ =~= gutter_spec(line_numbers, old, new, sign));
    }
    s
}

/// Where the sign sits in the gutter: after the two numbers and their spaces
/// (ten characters) when numbers are shown, else first.
pub fn gutter_sign_offset(line_numbers: bool) -> (n: i32)
    ensures
        n == if line_numbers { 10int } else { 0int },
{
    if line_numbers {
        10
    } else {
        0
    }
}

/// A number below 10000 is at most four digits long.
proof fn lemma_short_decimal(n: nat)
    ensures
        n < 10 ==> decimal(n).len() == 1,
        n < 100 ==> decimal(n).len() <= 2,
        n < 1000 ==> decimal(n).len() <= 3,
        n < 10000 ==> decimal(n).len() <= 4,
    decreases n,
{
    if n >= 10 {
        lemma_short_decimal(n / 10);
    }
}

/// A line number shown in the gutter: absent, or below 10000.
pub open spec fn fits_gutter(n: Option<u32>) -> bool {
    match n {
        Some(v) => v < 10000,
        None => true,
    }
}

/// With line numbers below 10000, the sign stands at the offset that
/// `gutter_sign_offset` gives: the eleventh character with numbers, the first
/// without.
pub proof fn law_sign_at_offset(old: Option<u32>, new: Option<u32>, sign: char)
    requires
        fits_gutter(old),
        fits_gutter(new),
    ensures
        gutter_spec(true, old, new, sign).len() == 12,
        gutter_spec(true, old, new, sign)[10] == sign,
        gutter_spec(false, old, new, sign)[0] == sign,
{
    if let Some(v) = old {
        lemma_short_decimal(v as nat);
    }
    if let Some(v) = new {
        lemma_short_decimal(v as nat);
    }
    let g = gutter_spec(true, old, new, sign);
    assert(pad_left(num_text(old), 4).len() == 4);
    assert(pad_left(num_text(new), 4).len() == 4);
    assert(g[10] == sign);
}

/// With line numbers below 10000, the old number stands right-aligned in the
/// first four columns and the new one in the four after a space, each
/// padded on the left with spaces (blank when absent); then a space, the
/// sign and a space.
pub proof fn law_gutter_columns(old: Option<u32>, new: Option<u32>, sign: char)
    requires
        fits_gutter(old),
        fits_gutter(new),
    ensures
        ({
            let g = gutter_spec(true, old, new, sign);
            let a = num_text(old);
            let b = num_text(new);
            &&& g.len() == 12
            &&& g.subrange(4 - a.len(), 4) == a
            &&& forall|i: int| 0 <= i < 4 - a.len() ==> g[i] == ' '
            &&& g[4] == ' '
            &&& g.subrange(9 - b.len(), 9) == b
            &&& forall|i: int| 5 <= i < 9 - b.len() ==> g[i] == ' '
            &&& g[9] == ' ' && g[10] == sign && g[11] == ' '
        }),
{
    if let Some(v) = old {
        lemma_short_decimal(v as nat);
    }
    if let Some(v) = new {
        lemma_short_decimal(v as nat);
    }
    let g = gutter_spec(true, old, new, sign);
    let a = num_text(old);
    let b = num_text(new);
    let pa = pad_left(a, 4);
    let pb = pad_left(b, 4);
    assert(pa.len() == 4 && pb.len() == 4);
    assert(pa.skip(4 - a.len()) =~= a);
    assert(pb.skip(4 - b.len()) =~= b);
    assert(g.subrange(4 - a.len(), 4) =~= pa.skip(4 - a.len()));
    assert(g.subrange(9 - b.len(), 9) =~= pb.skip(4 - b.len()));
    assert forall|i: int| 0 <= i < 4 - a.len() implies g[i] == ' ' by {
        assert(g[i] == pa[i]);
    }
    assert forall|i: int| 5 <= i < 9 - b.len() implies g[i] == ' ' by {
        assert(g[i] == pb[i - 5]);
    }
}

} // verus!
