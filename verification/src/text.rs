//! Character-sequence primitives: whitespace trimming, splitting on a
//! delimiter, joining, counting, and line splitting, each with a spec-level
//! definition and a verified executable counterpart.

use vstd::prelude::*;
use vstd::string::StrSliceExecFns;

verus! {

/// Whitespace as far as trimming is concerned: the ASCII blank characters.
pub open spec fn is_blank(c: char) -> bool {
    c == ' ' || c == '\t' || c == '\n' || c == '\r' || c == '\u{b}' || c == '\u{c}'
}

/// `s` with its leading blanks removed.
pub open spec fn trim_front(s: Seq<char>) -> Seq<char>
    decreases s.len(),
{
    if s.len() == 0 {
        s
    } else if is_blank(s[0]) {
        trim_front(s.drop_first())
    } else {
        s
    }
}

/// `s` with its trailing blanks removed.
pub open spec fn trim_back(s: Seq<char>) -> Seq<char>
    decreases s.len(),
{
    if s.len() == 0 {
        s
    } else if is_blank(s.last()) {
        trim_back(s.drop_last())
    } else {
        s
    }
}

/// `s` with leading and trailing blanks removed.
pub open spec fn trimmed(s: Seq<char>) -> Seq<char> {
    trim_back(trim_front(s))
}

/// Index of the first occurrence of `d` in `s`, or -1 if there is none.
pub open spec fn find_char(s: Seq<char>, d: char) -> int
    decreases s.len(),
{
    if s.len() == 0 {
        -1
    } else if s[0] == d {
        0
    } else {
        let r = find_char(s.drop_first(), d);
        if r < 0 {
            -1
        } else {
            r + 1
        }
    }
}

/// `s` split on every occurrence of `d`. Always has one part more than `s`
/// has delimiters; the parts themselves never contain `d`.
pub open spec fn split_at_char(s: Seq<char>, d: char) -> Seq<Seq<char>>
    decreases s.len(),
{
    let i = find_char(s, d);
    if i < 0 || i >= s.len() {
        seq![s]
    } else {
        seq![s.take(i)] + split_at_char(s.skip(i + 1), d)
    }
}

/// The parts joined with `d` between consecutive parts.
pub open spec fn join_char(parts: Seq<Seq<char>>, d: char) -> Seq<char>
    decreases parts.len(),
{
    if parts.len() == 0 {
        Seq::empty()
    } else if parts.len() == 1 {
        parts[0]
    } else {
        parts[0] + seq![d] + join_char(parts.drop_first(), d)
    }
}

/// How many times `d` occurs in `s`.
pub open spec fn count_char(s: Seq<char>, d: char) -> nat
    decreases s.len(),
{
    if s.len() == 0 {
        0
    } else {
        (if s[0] == d {
            1nat
        } else {
            0nat
        }) + count_char(s.drop_first(), d)
    }
}

/// The lines of `s`: split on `'\n'`, with a trailing newline producing no
/// final empty line.
pub open spec fn text_lines(s: Seq<char>) -> Seq<Seq<char>> {
    if s.len() == 0 {
        Seq::empty()
    } else if s.last() == '\n' {
        split_at_char(s.drop_last(), '\n')
    } else {
        split_at_char(s, '\n')
    }
}

// ---------------------------------------------------------------------------
// Lemmas about find_char and split_at_char
// ---------------------------------------------------------------------------

/// The defining properties of `find_char`.
pub proof fn lemma_find_props(s: Seq<char>, d: char)
    ensures
        -1 <= find_char(s, d) < s.len(),
        find_char(s, d) == -1 ==> !s.contains(d),
        find_char(s, d) >= 0 ==> s[find_char(s, d)] == d,
        find_char(s, d) >= 0 ==> forall|i: int| 0 <= i < find_char(s, d) ==> s[i] != d,
        !s.contains(d) ==> find_char(s, d) == -1,
    decreases s.len(),
{
    if s.len() == 0 {
    } else if s[0] == d {
        assert(s.contains(d));
    } else {
        lemma_find_props(s.drop_first(), d);
        let r = find_char(s.drop_first(), d);
        if r == -1 {
            assert forall|i: int| 0 <= i < s.len() implies s[i] != d by {
                if i > 0 {
                    assert(s.drop_first()[i - 1] == s[i]);
                    assert(!s.drop_first().contains(d));
                }
            }
            assert(!s.contains(d));
        } else {
            assert(s[r + 1] == s.drop_first()[r]);
            assert forall|i: int| 0 <= i < r + 1 implies s[i] != d by {
                if i > 0 {
                    assert(s.drop_first()[i - 1] == s[i]);
                }
            }
            assert(s.contains(d)) by {
                assert(s[r + 1] == d);
            }
        }
        if s.contains(d) {
            let w = choose|w: int| 0 <= w < s.len() && s[w] == d;
            assert(w > 0);
            assert(s.drop_first()[w - 1] == d);
            assert(s.drop_first().contains(d));
        }
    }
}

/// If a clean prefix is followed by the delimiter, `find_char` lands on it.
pub proof fn lemma_find_concat(a: Seq<char>, b: Seq<char>, d: char)
    requires
        !a.contains(d),
    ensures
        find_char(a + seq![d] + b, d) == a.len(),
    decreases a.len(),
{
    let s = a + seq![d] + b;
    if a.len() == 0 {
        assert(s[0] == d);
    } else {
        assert(s[0] == a[0]);
        assert(a.contains(d) <==> exists|i: int| 0 <= i < a.len() && a[i] == d);
        assert(s[0] != d);
        assert(!a.drop_first().contains(d)) by {
            if a.drop_first().contains(d) {
                let w = choose|w: int| 0 <= w < a.drop_first().len() && a.drop_first()[w] == d;
                assert(a[w + 1] == d);
                assert(a.contains(d));
            }
        }
        lemma_find_concat(a.drop_first(), b, d);
        assert(s.drop_first() =~= a.drop_first() + seq![d] + b);
    }
}

/// Splitting a string that starts with a clean part recovers that part.
pub proof fn lemma_split_concat(a: Seq<char>, b: Seq<char>, d: char)
    requires
        !a.contains(d),
    ensures
        split_at_char(a + seq![d] + b, d) == seq![a] + split_at_char(b, d),
{
    let s = a + seq![d] + b;
    lemma_find_concat(a, b, d);
    assert(s.take(a.len() as int) =~= a);
    assert(s.skip(a.len() as int + 1) =~= b);
}

/// Splitting a string with no delimiter yields just the string itself.
pub proof fn lemma_split_clean(s: Seq<char>, d: char)
    requires
        !s.contains(d),
    ensures
        split_at_char(s, d) == seq![s],
{
    lemma_find_props(s, d);
    if find_char(s, d) >= 0 {
        assert(s.contains(d)) by {
            assert(s[find_char(s, d)] == d);
        }
    }
}

/// Structural facts about a split: at least one part, parts are clean and
/// no longer than the input.
pub proof fn lemma_split_basic(s: Seq<char>, d: char)
    ensures
        split_at_char(s, d).len() >= 1,
        forall|k: int|
            0 <= k < split_at_char(s, d).len() ==> !(#[trigger] split_at_char(s, d)[k]).contains(
                d,
            ),
        forall|k: int|
            0 <= k < split_at_char(s, d).len() ==> (#[trigger] split_at_char(s, d)[k]).len()
                <= s.len(),
    decreases s.len(),
{
    lemma_find_props(s, d);
    let i = find_char(s, d);
    if i >= 0 {
        lemma_split_basic(s.skip(i + 1), d);
        assert(!s.take(i).contains(d)) by {
            if s.take(i).contains(d) {
                let w = choose|w: int| 0 <= w < i && s.take(i)[w] == d;
                assert(s[w] == d);
            }
        }
        let parts = split_at_char(s, d);
        let rest = split_at_char(s.skip(i + 1), d);
        assert forall|k: int| 0 <= k < parts.len() implies !(#[trigger] parts[k]).contains(d)
            && parts[k].len() <= s.len() by {
            if k > 0 {
                assert(parts[k] == rest[k - 1]);
            }
        }
    } else {
        if s.contains(d) {
            assert(find_char(s, d) >= 0);
        }
    }
}

/// Joining the parts of a split gives back the original string.
pub proof fn lemma_join_split(s: Seq<char>, d: char)
    ensures
        join_char(split_at_char(s, d), d) == s,
    decreases s.len(),
{
    lemma_find_props(s, d);
    let i = find_char(s, d);
    if i >= 0 {
        lemma_join_split(s.skip(i + 1), d);
        lemma_split_basic(s.skip(i + 1), d);
        let parts = split_at_char(s, d);
        let rest = split_at_char(s.skip(i + 1), d);
        assert(parts.drop_first() =~= rest);
        assert(parts.len() >= 2);
        assert(join_char(parts, d) == parts[0] + seq![d] + join_char(rest, d));
        assert(s.take(i) + seq![d] + s.skip(i + 1) =~= s);
    }
}

/// Splitting a join of clean parts gives back the parts.
pub proof fn lemma_split_join(parts: Seq<Seq<char>>, d: char)
    requires
        parts.len() >= 1,
        forall|k: int| 0 <= k < parts.len() ==> !(#[trigger] parts[k]).contains(d),
    ensures
        split_at_char(join_char(parts, d), d) == parts,
    decreases parts.len(),
{
    if parts.len() == 1 {
        lemma_split_clean(parts[0], d);
        assert(seq![parts[0]] =~= parts);
    } else {
        let rest = parts.drop_first();
        lemma_split_join(rest, d);
        lemma_split_concat(parts[0], join_char(rest, d), d);
        assert(seq![parts[0]] + rest =~= parts);
    }
}

/// Counts add over concatenation.
pub proof fn lemma_count_concat(a: Seq<char>, b: Seq<char>, d: char)
    ensures
        count_char(a + b, d) == count_char(a, d) + count_char(b, d),
    decreases a.len(),
{
    if a.len() == 0 {
        assert(a + b =~= b);
    } else {
        lemma_count_concat(a.drop_first(), b, d);
        assert((a + b).drop_first() =~= a.drop_first() + b);
    }
}

/// A string without the delimiter has count zero.
pub proof fn lemma_count_clean(s: Seq<char>, d: char)
    requires
        !s.contains(d),
    ensures
        count_char(s, d) == 0,
    decreases s.len(),
{
    if s.len() > 0 {
        assert(s[0] != d);
        assert(!s.drop_first().contains(d)) by {
            if s.drop_first().contains(d) {
                let w = choose|w: int| 0 <= w < s.drop_first().len() && s.drop_first()[w] == d;
                assert(s[w + 1] == d);
            }
        }
        lemma_count_clean(s.drop_first(), d);
    }
}

/// A join of `n` clean parts contains exactly `n - 1` delimiters.
pub proof fn lemma_count_join(parts: Seq<Seq<char>>, d: char)
    requires
        parts.len() >= 1,
        forall|k: int| 0 <= k < parts.len() ==> !(#[trigger] parts[k]).contains(d),
    ensures
        count_char(join_char(parts, d), d) == parts.len() - 1,
    decreases parts.len(),
{
    if parts.len() == 1 {
        lemma_count_clean(parts[0], d);
    } else {
        let rest = parts.drop_first();
        lemma_count_join(rest, d);
        lemma_count_clean(parts[0], d);
        lemma_count_concat(parts[0] + seq![d], join_char(rest, d), d);
        lemma_count_concat(parts[0], seq![d], d);
        assert(count_char(seq![d], d) == 1) by {
            assert(seq![d].drop_first() =~= Seq::<char>::empty());
            assert(count_char(Seq::<char>::empty(), d) == 0);
        }
        assert(parts[0] + seq![d] + join_char(rest, d) =~= (parts[0] + seq![d]) + join_char(
            rest,
            d,
        ));
    }
}

/// Extending a join by one more part appends one delimiter and the part.
pub proof fn lemma_join_push(parts: Seq<Seq<char>>, d: char, x: Seq<char>)
    requires
        parts.len() >= 1,
    ensures
        join_char(parts.push(x), d) == join_char(parts, d) + seq![d] + x,
    decreases parts.len(),
{
    if parts.len() == 1 {
        assert(parts.push(x).drop_first() =~= seq![x]);
        assert(join_char(seq![x], d) == x);
        assert(join_char(parts.push(x), d) == parts[0] + seq![d] + x);
    } else {
        lemma_join_push(parts.drop_first(), d, x);
        assert(parts.push(x).drop_first() =~= parts.drop_first().push(x));
        assert(parts[0] + seq![d] + (join_char(parts.drop_first(), d) + seq![d] + x) =~= (parts[0]
            + seq![d] + join_char(parts.drop_first(), d)) + seq![d] + x);
    }
}

/// Lines of a string that starts with a newline-free line.
pub proof fn lemma_lines_prepend(l: Seq<char>, t: Seq<char>)
    requires
        !l.contains('\n'),
    ensures
        text_lines(l + seq!['\n'] + t) == seq![l] + text_lines(t),
{
    let s = l + seq!['\n'] + t;
    assert(s.len() > 0);
    if t.len() == 0 {
        assert(s.last() == '\n');
        assert(s.drop_last() =~= l);
        lemma_split_clean(l, '\n');
        assert(seq![l] + text_lines(t) =~= seq![l]);
    } else if t.last() == '\n' {
        assert(s.last() == t.last());
        assert(s.drop_last() =~= l + seq!['\n'] + t.drop_last());
        lemma_split_concat(l, t.drop_last(), '\n');
    } else {
        assert(s.last() == t.last());
        lemma_split_concat(l, t, '\n');
    }
}

/// Every character of every part of a split occurs in the split's input.
pub proof fn lemma_split_chars(s: Seq<char>, d: char)
    ensures
        forall|k: int, c: char|
            #![trigger split_at_char(s, d)[k].contains(c)]
            0 <= k < split_at_char(s, d).len() && split_at_char(s, d)[k].contains(c)
                ==> s.contains(c),
    decreases s.len(),
{
    lemma_find_props(s, d);
    let i = find_char(s, d);
    if i >= 0 {
        lemma_split_chars(s.skip(i + 1), d);
        let parts = split_at_char(s, d);
        let rest = split_at_char(s.skip(i + 1), d);
        assert forall|k: int, c: char|
            #![trigger parts[k].contains(c)]
            0 <= k < parts.len() && parts[k].contains(c) implies s.contains(c) by {
            if k == 0 {
                let w = choose|w: int| 0 <= w < s.take(i).len() && s.take(i)[w] == c;
                assert(s[w] == c);
            } else {
                assert(parts[k] == rest[k - 1]);
                assert(s.skip(i + 1).contains(c));
                let t = s.skip(i + 1);
                let w = choose|w: int| 0 <= w < t.len() && #[trigger] t[w] == c;
                assert(s[w + i + 1] == c);
            }
        }
    }
}

/// A join of parts free of some character, with a different delimiter, is
/// itself free of it.
pub proof fn lemma_join_clean(parts: Seq<Seq<char>>, d: char, c: char)
    requires
        c != d,
        forall|k: int| 0 <= k < parts.len() ==> !(#[trigger] parts[k]).contains(c),
    ensures
        !join_char(parts, d).contains(c),
    decreases parts.len(),
{
    if parts.len() == 0 {
    } else if parts.len() == 1 {
        assert(!parts[0].contains(c));
    } else {
        lemma_join_clean(parts.drop_first(), d, c);
        let j = parts[0] + seq![d] + join_char(parts.drop_first(), d);
        if j.contains(c) {
            let w = choose|w: int| 0 <= w < j.len() && j[w] == c;
            if w < parts[0].len() {
                assert(parts[0][w] == c);
                assert(parts[0].contains(c));
            } else if w == parts[0].len() {
                assert(j[w] == d);
            } else {
                assert(join_char(parts.drop_first(), d)[w - parts[0].len() - 1] == c);
                assert(join_char(parts.drop_first(), d).contains(c));
            }
        }
    }
}

/// A join of at least two parts contains the delimiter.
pub proof fn lemma_join_has_delim(parts: Seq<Seq<char>>, d: char)
    requires
        parts.len() >= 2,
    ensures
        join_char(parts, d).contains(d),
{
    let j = parts[0] + seq![d] + join_char(parts.drop_first(), d);
    assert(j[parts[0].len() as int] == d);
    assert(j.contains(d));
}

// ---------------------------------------------------------------------------
// Lemmas about trimming
// ---------------------------------------------------------------------------

/// Dropping a known-blank prefix commutes with `trim_front`.
pub proof fn lemma_trim_front_skip(s: Seq<char>, k: int)
    requires
        0 <= k <= s.len(),
        forall|i: int| 0 <= i < k ==> is_blank(s[i]),
    ensures
        trim_front(s) == trim_front(s.skip(k)),
    decreases k,
{
    if k > 0 {
        assert(is_blank(s[0]));
        lemma_trim_front_skip(s.drop_first(), k - 1);
        assert(s.drop_first().skip(k - 1) =~= s.skip(k));
    } else {
        assert(s.skip(0) =~= s);
    }
}

/// A string that starts with a non-blank is already front-trimmed.
pub proof fn lemma_trim_front_noop(s: Seq<char>)
    requires
        s.len() == 0 || !is_blank(s[0]),
    ensures
        trim_front(s) == s,
{
}

/// Dropping a known-blank suffix commutes with `trim_back`.
pub proof fn lemma_trim_back_take(s: Seq<char>, k: int)
    requires
        0 <= k <= s.len(),
        forall|i: int| k <= i < s.len() ==> is_blank(s[i]),
    ensures
        trim_back(s) == trim_back(s.take(k)),
    decreases s.len() - k,
{
    if k < s.len() {
        assert(is_blank(s.last()));
        lemma_trim_back_take(s.drop_last(), k);
        assert(s.drop_last().take(k) =~= s.take(k));
    } else {
        assert(s.take(k) =~= s);
    }
}

/// A string that ends with a non-blank is already back-trimmed.
pub proof fn lemma_trim_back_noop(s: Seq<char>)
    requires
        s.len() == 0 || !is_blank(s.last()),
    ensures
        trim_back(s) == s,
{
}

/// A trimmed string neither starts nor ends with a blank, and its characters
/// all occur in the original.
pub proof fn lemma_trimmed_props(s: Seq<char>)
    ensures
        trimmed(s).len() > 0 ==> !is_blank(trimmed(s)[0]),
        trimmed(s).len() > 0 ==> !is_blank(trimmed(s).last()),
        forall|c: char| trimmed(s).contains(c) ==> s.contains(c),
        trimmed(s).len() <= s.len(),
{
    lemma_trim_front_sub(s);
    lemma_trim_back_sub(trim_front(s));
    lemma_trim_back_first(trim_front(s));
    assert forall|c: char| trimmed(s).contains(c) implies s.contains(c) by {
        assert(trim_front(s).contains(c));
    }
}

/// `trim_front` keeps a suffix: every character kept occurs in the original,
/// the first kept character is non-blank.
proof fn lemma_trim_front_sub(s: Seq<char>)
    ensures
        trim_front(s).len() <= s.len(),
        trim_front(s).len() > 0 ==> !is_blank(trim_front(s)[0]),
        forall|c: char| trim_front(s).contains(c) ==> s.contains(c),
    decreases s.len(),
{
    if s.len() > 0 && is_blank(s[0]) {
        lemma_trim_front_sub(s.drop_first());
        assert forall|c: char| trim_front(s).contains(c) implies s.contains(c) by {
            assert(s.drop_first().contains(c));
            let w = choose|w: int| 0 <= w < s.drop_first().len() && s.drop_first()[w] == c;
            assert(s[w + 1] == c);
        }
    }
}

/// `trim_back` keeps a prefix: characters kept occur in the original, the
/// last kept character is non-blank.
proof fn lemma_trim_back_sub(s: Seq<char>)
    ensures
        trim_back(s).len() <= s.len(),
        trim_back(s).len() > 0 ==> !is_blank(trim_back(s).last()),
        forall|c: char| trim_back(s).contains(c) ==> s.contains(c),
    decreases s.len(),
{
    if s.len() > 0 && is_blank(s.last()) {
        lemma_trim_back_sub(s.drop_last());
        assert forall|c: char| trim_back(s).contains(c) implies s.contains(c) by {
            assert(s.drop_last().contains(c));
            let w = choose|w: int| 0 <= w < s.drop_last().len() && s.drop_last()[w] == c;
            assert(s[w] == c);
        }
    }
}

/// `trim_back` does not change the first character when one survives.
proof fn lemma_trim_back_first(s: Seq<char>)
    ensures
        trim_back(s).len() > 0 ==> trim_back(s)[0] == s[0],
    decreases s.len(),
{
    if s.len() > 0 && is_blank(s.last()) {
        lemma_trim_back_first(s.drop_last());
    }
}

/// A string keeping a non-blank character back-trims to something non-empty.
pub proof fn lemma_trim_back_nonempty(s: Seq<char>, k: int)
    requires
        0 <= k < s.len(),
        !is_blank(s[k]),
    ensures
        trim_back(s).len() > 0,
    decreases s.len(),
{
    if is_blank(s.last()) {
        assert(s.drop_last()[k] == s[k]);
        lemma_trim_back_nonempty(s.drop_last(), k);
    }
}

/// A string with a non-blank character trims to something non-empty.
pub proof fn lemma_trimmed_nonempty(s: Seq<char>, k: int)
    requires
        0 <= k < s.len(),
        !is_blank(s[k]),
    ensures
        trimmed(s).len() > 0,
    decreases s.len(),
{
    if is_blank(s[0]) {
        assert(s.drop_first()[k - 1] == s[k]);
        lemma_trimmed_nonempty(s.drop_first(), k - 1);
    } else {
        lemma_trim_front_noop(s);
        lemma_trim_back_nonempty(s, k);
    }
}

/// Trimming a string whose ends are already non-blank changes nothing.
pub proof fn lemma_trimmed_noop(s: Seq<char>)
    requires
        s.len() == 0 || (!is_blank(s[0]) && !is_blank(s.last())),
    ensures
        trimmed(s) == s,
{
    lemma_trim_front_noop(s);
    lemma_trim_back_noop(s);
}

// ---------------------------------------------------------------------------
// Executable counterparts
// ---------------------------------------------------------------------------

/// Whether `c` counts as a blank for trimming.
pub fn blank_char(c: char) -> (r: bool)
    ensures
        r == is_blank(c),
{
    c == ' ' || c == '\t' || c == '\n' || c == '\r' || c == '\u{b}' || c == '\u{c}'
}

/// Whether `v` contains the character `d`.
pub fn has_char(v: &Vec<char>, d: char) -> (r: bool)
    ensures
        r == v@.contains(d),
{
    let mut i: usize = 0;
    while i < v.len()
        invariant
            0 <= i <= v@.len(),
            forall|k: int| 0 <= k < i ==> v@[k] != d,
        decreases v@.len() - i,
    {
        if v[i] == d {
            return true;
        }
        i = i + 1;
    }
    false
}

/// `v` with leading and trailing blanks removed.
pub fn trim_chars(v: &Vec<char>) -> (r: Vec<char>)
    ensures
        r@ == trimmed(v@),
{
    let n = v.len();
    let mut a: usize = 0;
    while a < n && blank_char(v[a])
        invariant
            0 <= a <= n,
            n == v@.len(),
            forall|i: int| 0 <= i < a ==> is_blank(v@[i]),
        decreases n - a,
    {
        a = a + 1;
    }
    proof {
        lemma_trim_front_skip(v@, a as int);
    }
    if a == n {
        proof {
            assert(v@.skip(a as int) =~= Seq::<char>::empty());
        }
        return Vec::new();
    }
    let mut b: usize = n;
    while b > a && blank_char(v[b - 1])
        invariant
            a <= b <= n,
            n == v@.len(),
            forall|i: int| b <= i < n ==> is_blank(v@[i]),
        decreases b,
    {
        b = b - 1;
    }
    proof {
        assert(!is_blank(v@[a as int]));
        assert(b > a);
        let f = v@.skip(a as int);
        assert(trim_front(v@) == f);
        lemma_trim_back_take(f, b - a);
        assert(f.take(b - a) =~= v@.subrange(a as int, b as int));
        let t = v@.subrange(a as int, b as int);
        assert(t.len() > 0 && !is_blank(t.last()));
        lemma_trim_back_noop(t);
    }
    let mut r: Vec<char> = Vec::new();
    let mut i: usize = a;
    while i < b
        invariant
            a <= i <= b <= n,
            n == v@.len(),
            r@ == v@.subrange(a as int, i as int),
        decreases b - i,
    {
        r.push(v[i]);
        proof {
            assert(v@.subrange(a as int, i + 1 as int) =~= v@.subrange(a as int, i as int).push(
                v@[i as int],
            ));
        }
        i = i + 1;
    }
    r
}

/// The deep view of a vector of character vectors, elementwise.
pub proof fn lemma_rows_view(r: &Vec<Vec<char>>)
    ensures
        r.deep_view().len() == r@.len(),
        forall|j: int| 0 <= j < r@.len() ==> #[trigger] r.deep_view()[j] == r@[j]@,
{
    assert forall|j: int| 0 <= j < r@.len() implies #[trigger] r.deep_view()[j] == r@[j]@ by {
        assert(r.deep_view()[j] == r@[j].deep_view());
        assert(r@[j].deep_view() =~= r@[j]@);
    }
}

/// `v` split on every occurrence of `d`.
pub fn split_on(v: &Vec<char>, d: char) -> (r: Vec<Vec<char>>)
    ensures
        r.deep_view() == split_at_char(v@, d),
{
    let mut r: Vec<Vec<char>> = Vec::new();
    let mut cur: Vec<char> = Vec::new();
    let mut i: usize = 0;
    proof {
        assert(v@.skip(0) =~= v@);
        lemma_split_basic(v@, d);
        let sp = split_at_char(v@, d);
        assert(split_prepend(cur@, sp) =~~= sp);
        assert(r.deep_view() =~= Seq::<Seq<char>>::empty());
        assert(r.deep_view() + split_prepend(cur@, sp) =~~= sp);
    }
    while i < v.len()
        invariant
            0 <= i <= v@.len(),
            split_at_char(v@, d) == r.deep_view() + split_prepend(cur@, split_at_char(
                v@.skip(i as int),
                d,
            )),
        decreases v@.len() - i,
    {
        let ghost rest = v@.skip(i as int);
        let ghost r0 = r.deep_view();
        let ghost cur0 = cur@;
        proof {
            assert(rest.len() > 0);
            assert(rest[0] == v@[i as int]);
        }
        if v[i] == d {
            r.push(cur);
            cur = Vec::new();
            proof {
                lemma_split_step_delim(rest, d);
                assert(rest.skip(1) =~= v@.skip(i + 1));
                let sp = split_at_char(v@.skip(i + 1), d);
                lemma_split_basic(v@.skip(i + 1), d);
                assert(split_prepend(cur0, seq![Seq::<char>::empty()] + sp) =~~= seq![cur0] + sp);
                assert(r.deep_view() =~~= r0.push(cur0));
                assert(split_prepend(cur@, sp) =~~= sp);
                assert(r0 + (seq![cur0] + sp) =~~= r0.push(cur0) + sp);
            }
        } else {
            cur.push(v[i]);
            proof {
                lemma_split_step_char(rest, d);
                assert(rest.skip(1) =~= v@.skip(i + 1));
                let sp = split_at_char(v@.skip(i + 1), d);
                assert(cur@ == cur0.push(v@[i as int]));
                assert(split_prepend(cur0, split_at_char(rest, d)) =~~= split_prepend(cur@, sp));
            }
        }
        i = i + 1;
    }
    let ghost r0 = r.deep_view();
    let ghost cur0 = cur@;
    r.push(cur);
    proof {
        assert(v@.skip(i as int) =~= Seq::<char>::empty());
        assert(split_at_char(Seq::<char>::empty(), d) == seq![Seq::<char>::empty()]);
        assert(split_prepend(cur0, seq![Seq::<char>::empty()]) =~~= seq![cur0]);
        assert(r.deep_view() =~~= r0.push(cur0));
        assert(r0 + seq![cur0] =~~= r0.push(cur0));
    }
    r
}

/// The split of a string that begins mid-part: the pending prefix `p` is
/// glued onto the first part.
pub open spec fn split_prepend(p: Seq<char>, parts: Seq<Seq<char>>) -> Seq<Seq<char>> {
    if parts.len() == 0 {
        seq![p]
    } else {
        seq![p + parts[0]] + parts.drop_first()
    }
}

/// Unfolding a split at a leading delimiter.
proof fn lemma_split_step_delim(s: Seq<char>, d: char)
    requires
        s.len() > 0,
        s[0] == d,
    ensures
        split_at_char(s, d) == seq![Seq::<char>::empty()] + split_at_char(s.skip(1), d),
{
    assert(find_char(s, d) == 0);
    assert(s.take(0) =~= Seq::<char>::empty());
}

/// Unfolding a split at a leading ordinary character.
proof fn lemma_split_step_char(s: Seq<char>, d: char)
    requires
        s.len() > 0,
        s[0] != d,
    ensures
        split_at_char(s, d).len() >= 1,
        split_at_char(s.skip(1), d).len() >= 1,
        split_at_char(s, d) == seq![seq![s[0]] + split_at_char(s.skip(1), d)[0]] + split_at_char(
            s.skip(1),
            d,
        ).drop_first(),
{
    lemma_find_props(s, d);
    lemma_find_props(s.skip(1), d);
    lemma_split_basic(s, d);
    lemma_split_basic(s.skip(1), d);
    assert(s.drop_first() =~= s.skip(1));
    let i = find_char(s, d);
    let r = find_char(s.skip(1), d);
    assert(i == if r < 0 { -1int } else { r + 1 });
    if r < 0 {
        assert(split_at_char(s, d) == seq![s]);
        assert(split_at_char(s.skip(1), d) == seq![s.skip(1)]);
        assert(seq![seq![s[0]] + s.skip(1)] + seq![s.skip(1)].drop_first() =~= seq![seq![s[0]]
            + s.skip(1)]);
        assert(seq![s[0]] + s.skip(1) =~= s);
    } else {
        assert(split_at_char(s, d) == seq![s.take(r + 1)] + split_at_char(s.skip(r + 2), d));
        assert(split_at_char(s.skip(1), d) == seq![s.skip(1).take(r)] + split_at_char(
            s.skip(1).skip(r + 1),
            d,
        ));
        assert(seq![s[0]] + s.skip(1).take(r) =~= s.take(r + 1));
        assert(s.skip(1).skip(r + 1) =~= s.skip(r + 2));
        assert((seq![s.skip(1).take(r)] + split_at_char(s.skip(r + 2), d)).drop_first()
            =~= split_at_char(s.skip(r + 2), d));
        assert(seq![seq![s[0]] + s.skip(1).take(r)] + split_at_char(s.skip(r + 2), d)
            =~= split_at_char(s, d));
    }
}

/// The lines of `v`, as `text_lines` describes them.
pub fn split_lines(v: &Vec<char>) -> (r: Vec<Vec<char>>)
    ensures
        r.deep_view() == text_lines(v@),
{
    if v.len() == 0 {
        let r: Vec<Vec<char>> = Vec::new();
        proof {
            assert(r.deep_view() =~= text_lines(v@));
        }
        return r;
    }
    if v[v.len() - 1] == '\n' {
        let mut body: Vec<char> = Vec::new();
        let mut i: usize = 0;
        while i < v.len() - 1
            invariant
                v@.len() > 0,
                0 <= i <= v@.len() - 1,
                body@ == v@.subrange(0, i as int),
            decreases v@.len() - i,
        {
            body.push(v[i]);
            proof {
                assert(v@.subrange(0, i + 1 as int) =~= v@.subrange(0, i as int).push(
                    v@[i as int],
                ));
            }
            i = i + 1;
        }
        proof {
            assert(body@ =~= v@.drop_last());
        }
        split_on(&body, '\n')
    } else {
        split_on(v, '\n')
    }
}

/// The parts of `parts` joined with `d` between consecutive parts.
pub fn join_with(parts: &Vec<Vec<char>>, d: char) -> (r: Vec<char>)
    ensures
        r@ == join_char(parts.deep_view(), d),
{
    let mut r: Vec<char> = Vec::new();
    if parts.len() == 0 {
        return r;
    }
    let mut i: usize = 0;
    while i < parts.len()
        invariant
            0 <= i <= parts@.len(),
            parts.deep_view().len() == parts@.len(),
            i > 0 ==> r@ == join_char(parts.deep_view().take(i as int), d),
            i == 0 ==> r@ == Seq::<char>::empty(),
        decreases parts@.len() - i,
    {
        if i > 0 {
            r.push(d);
        }
        let row = &parts[i];
        let mut j: usize = 0;
        let ghost mid = r@;
        while j < row.len()
            invariant
                0 <= j <= row@.len(),
                r@ == mid + row@.subrange(0, j as int),
            decreases row@.len() - j,
        {
            r.push(row[j]);
            proof {
                assert(row@.subrange(0, j + 1 as int) =~= row@.subrange(0, j as int).push(
                    row@[j as int],
                ));
            }
            j = j + 1;
        }
        proof {
            assert(row@.subrange(0, row@.len() as int) =~= row@);
            assert(parts.deep_view()[i as int] == parts@[i as int]@);
            if i == 0 {
                assert(parts.deep_view().take(1) =~= seq![parts.deep_view()[0]]);
                assert(r@ =~= parts.deep_view()[0]);
            } else {
                lemma_join_push(parts.deep_view().take(i as int), d, parts.deep_view()[i as int]);
                assert(parts.deep_view().take(i as int).push(parts.deep_view()[i as int])
                    =~= parts.deep_view().take(i + 1 as int));
                assert(r@ =~= join_char(parts.deep_view().take(i as int), d) + seq![d]
                    + parts.deep_view()[i as int]);
            }
        }
        i = i + 1;
    }
    proof {
        assert(parts.deep_view().take(parts@.len() as int) =~= parts.deep_view());
    }
    r
}

/// The characters of `s`, in order.
pub fn chars_of(s: &str) -> (r: Vec<char>)
    ensures
        r@ == s@,
{
    let n = s.unicode_len();
    let mut r: Vec<char> = Vec::new();
    let mut i: usize = 0;
    while i < n
        invariant
            0 <= i <= n,
            n == s@.len(),
            r@ == s@.subrange(0, i as int),
        decreases n - i,
    {
        r.push(s.get_char(i));
        proof {
            assert(s@.subrange(0, i + 1 as int) =~= s@.subrange(0, i as int).push(s@[i as int]));
        }
        i = i + 1;
    }
    proof {
        assert(s@.subrange(0, s@.len() as int) =~= s@);
    }
    r
}

/// A copy of a character vector.
pub fn clone_chars(v: &Vec<char>) -> (r: Vec<char>)
    ensures
        r@ == v@,
{
    let mut r: Vec<char> = Vec::new();
    let mut i: usize = 0;
    while i < v.len()
        invariant
            0 <= i <= v@.len(),
            r@ == v@.subrange(0, i as int),
        decreases v@.len() - i,
    {
        r.push(v[i]);
        proof {
            assert(v@.subrange(0, i + 1 as int) =~= v@.subrange(0, i as int).push(v@[i as int]));
        }
        i = i + 1;
    }
    proof {
        assert(v@.subrange(0, v@.len() as int) =~= v@);
    }
    r
}

/// Relies on `String::push`: appends the given character to the end of the
/// string.
#[verifier::external_body]
fn push_char(s: &mut String, c: char)
    ensures
        final(s)@ == old(s)@ + seq![c],
{
    s.push(c);
}

/// A `String` holding exactly the characters of `v`.
pub fn string_of(v: &Vec<char>) -> (r: String)
    ensures
        r@ == v@,
{
    let mut r = String::new();
    let mut i: usize = 0;
    while i < v.len()
        invariant
            0 <= i <= v@.len(),
            r@ == v@.subrange(0, i as int),
        decreases v@.len() - i,
    {
        push_char(&mut r, v[i]);
        proof {
            assert(v@.subrange(0, i + 1 as int) =~= v@.subrange(0, i as int).push(v@[i as int]));
        }
        i = i + 1;
    }
    proof {
        assert(v@.subrange(0, v@.len() as int) =~= v@);
    }
    r
}

} // verus!
