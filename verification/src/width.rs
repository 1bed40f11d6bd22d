//! Display-width measurement. A character occupies a number of terminal
//! columns given by the Unicode width tables; a text's width is the sum of
//! its characters' widths. The per-character lookup comes from the
//! `unicode_width` crate; padding characters (space and dash) are known to be
//! exactly one column wide, which is what makes padding arithmetic exact.

use vstd::prelude::*;

verus! {

/// Named result of `unicode_width`'s per-character table lookup, for
/// characters whose width is not pinned down locally.
pub uninterp spec fn char_width_base(c: char) -> nat;

/// Display width of one character in terminal columns. Space and dash — the
/// two padding characters — are one column wide; every other character has
/// the width the Unicode tables give it.
pub open spec fn char_width(c: char) -> nat {
    if c == ' ' || c == '-' {
        1
    } else {
        char_width_base(c)
    }
}

/// Display width of a text: the sum of its characters' widths.
pub open spec fn text_width(s: Seq<char>) -> nat
    decreases s.len(),
{
    if s.len() == 0 {
        0
    } else {
        char_width(s[0]) + text_width(s.drop_first())
    }
}

/// Relies on `unicode_width::UnicodeWidthChar::width`: the character's
/// display width in columns, `None` for a control character (counted as 0
/// here; control characters carry no visible columns). The crate's tables
/// assign space and dash width 1, and no character a width above 3.
#[verifier::external_body]
fn measure_char(c: char) -> (r: usize)
    ensures
        r as nat == char_width(c),
        (c != ' ' && c != '-') ==> r as nat == char_width_base(c),
        r <= 3,
{
    unicode_width::UnicodeWidthChar::width(c).unwrap_or(0)
}

/// Widths add when one more character is appended.
pub proof fn lemma_text_width_push(s: Seq<char>, c: char)
    ensures
        text_width(s.push(c)) == text_width(s) + char_width(c),
    decreases s.len(),
{
    if s.len() == 0 {
        assert(s.push(c).drop_first() =~= Seq::<char>::empty());
        assert(text_width(Seq::<char>::empty()) == 0);
        assert(s.push(c)[0] == c);
    } else {
        assert(s.push(c).drop_first() =~= s.drop_first().push(c));
        lemma_text_width_push(s.drop_first(), c);
    }
}

/// Widths add over concatenation.
pub proof fn lemma_text_width_concat(a: Seq<char>, b: Seq<char>)
    ensures
        text_width(a + b) == text_width(a) + text_width(b),
    decreases a.len(),
{
    if a.len() == 0 {
        assert(a + b =~= b);
    } else {
        assert((a + b).drop_first() =~= a.drop_first() + b);
        lemma_text_width_concat(a.drop_first(), b);
    }
}

/// A run of `n` copies of a one-column character is `n` columns wide.
pub proof fn lemma_text_width_repeat(n: nat, p: char)
    requires
        char_width(p) == 1,
    ensures
        text_width(Seq::new(n, |k: int| p)) == n,
    decreases n,
{
    let s = Seq::new(n, |k: int| p);
    if n == 0 {
    } else {
        assert(s.drop_first() =~= Seq::new((n - 1) as nat, |k: int| p));
        lemma_text_width_repeat((n - 1) as nat, p);
        assert(s[0] == p);
    }
}

/// The measured width of a character vector.
pub fn display_width(v: &Vec<char>) -> (r: u128)
    ensures
        r as nat == text_width(v@),
{
    let mut total: u128 = 0;
    let mut i: usize = 0;
    proof {
        assert(v@.take(0) =~= Seq::<char>::empty());
    }
    while i < v.len()
        invariant
            0 <= i <= v@.len(),
            total as nat == text_width(v@.take(i as int)),
            total <= 3 * i,
        decreases v@.len() - i,
    {
        let w = measure_char(v[i]);
        proof {
            assert(v@.take(i + 1 as int) =~= v@.take(i as int).push(v@[i as int]));
            lemma_text_width_push(v@.take(i as int), v@[i as int]);
        }
        total = total + (w as u128);
        i = i + 1;
    }
    proof {
        assert(v@.take(v@.len() as int) =~= v@);
    }
    total
}

} // verus!
