//! Character-level helpers: whitespace splitting, prefixes and text order.

use vstd::prelude::*;
use vstd::utf8::char_u32_cast;

verus! {

/// Whether a character has the Unicode `White_Space` property (what `char::is_whitespace`
/// decides).
pub open spec fn white_space(c: char) -> bool {
    let u = c as u32;
    ||| 0x9 <= u <= 0xD
    ||| u == 0x20
    ||| u == 0x85
    ||| u == 0xA0
    ||| u == 0x1680
    ||| 0x2000 <= u <= 0x200A
    ||| u == 0x2028
    ||| u == 0x2029
    ||| u == 0x202F
    ||| u == 0x205F
    ||| u == 0x3000
}

/// Whether `c` has the Unicode `White_Space` property.
pub fn is_space(c: char) -> (r: bool)
    ensures
        r == white_space(c),
{
    let u = c as u32;
    (0x9 <= u && u <= 0xD) || u == 0x20 || u == 0x85 || u == 0xA0 || u == 0x1680 || (0x2000 <= u
        && u <= 0x200A) || u == 0x2028 || u == 0x2029 || u == 0x202F || u == 0x205F || u == 0x3000
}

/// The whitespace-separated words of `s`, in order.
pub open spec fn words(s: Seq<char>) -> Seq<Seq<char>>
    decreases s.len(),
{
    if s.len() == 0 {
        Seq::empty()
    } else {
        let rest = words(s.drop_last());
        let c = s.last();
        if white_space(c) {
            rest
        } else if s.len() >= 2 && !white_space(s[s.len() - 2]) && rest.len() > 0 {
            rest.update(rest.len() - 1, rest.last().push(c))
        } else {
            rest.push(seq![c])
        }
    }
}

/// Whether the text ends in a whitespace character.
pub open spec fn ends_in_space(s: Seq<char>) -> bool {
    s.len() > 0 && white_space(s.last())
}

/// The character sequences held by a list of strings.
pub open spec fn texts(v: Seq<String>) -> Seq<Seq<char>> {
    v.map_values(|s: String| s@)
}

/// Strict lexicographic order on texts, by code point (the order of `String`).
pub open spec fn text_lt(a: Seq<char>, b: Seq<char>) -> bool
    decreases a.len(),
{
    if a.len() == 0 {
        b.len() > 0
    } else if b.len() == 0 {
        false
    } else if a[0] != b[0] {
        (a[0] as u32) < (b[0] as u32)
    } else {
        text_lt(a.drop_first(), b.drop_first())
    }
}

/// Splits `line` into its whitespace-separated words.
pub fn split_words(line: &str) -> (r: Vec<String>)
    ensures
        texts(r@) == words(line@),
{
    let n = line.unicode_len();
    let mut out: Vec<String> = Vec::new();
    let mut start: usize = 0;
    let mut in_word = false;
    let mut i: usize = 0;
    while i < n
        invariant
            n == line@.len(),
            start <= i <= n,
            in_word ==> start < i,
            in_word <==> (i > 0 && !white_space(line@[i - 1])),
            in_word ==> words(line@.take(i as int)) == texts(out@).push(
                line@.subrange(start as int, i as int),
            ),
            !in_word ==> words(line@.take(i as int)) == texts(out@),
        decreases n - i,
    {
        let c = line.get_char(i);
        let ghost before = texts(out@);
        assert(line@.take(i + 1).drop_last() =~= line@.take(i as int));
        if is_space(c) {
            if in_word {
                let w = line.substring_char(start, i).to_owned();
                out.push(w);
                assert(texts(out@) =~= before.push(line@.subrange(start as int, i as int)));
                in_word = false;
            }
        } else if in_word {
            assert(line@.subrange(start as int, i as int).push(c) =~= line@.subrange(
                start as int,
                i + 1,
            ));
        } else {
            assert(line@.subrange(i as int, i + 1) =~= seq![c]);
            start = i;
            in_word = true;
        }
        i = i + 1;
    }
    assert(line@.take(n as int) =~= line@);
    if in_word {
        let ghost before = texts(out@);
        let w = line.substring_char(start, n).to_owned();
        out.push(w);
        assert(texts(out@) =~= before.push(line@.subrange(start as int, n as int)));
    }
    out
}

/// Whether `p` is a prefix of `s`.
pub fn has_prefix(s: &str, p: &str) -> (r: bool)
    ensures
        r == p@.is_prefix_of(s@),
{
    let n = s.unicode_len();
    let m = p.unicode_len();
    if m > n {
        return false;
    }
    let mut i: usize = 0;
    while i < m
        invariant
            m <= n,
            n == s@.len(),
            m == p@.len(),
            i <= m,
            p@.take(i as int) =~= s@.take(i as int),
        decreases m - i,
    {
        if s.get_char(i) != p.get_char(i) {
            return false;
        }
        i = i + 1;
        assert(p@.take(i as int) =~= s@.take(i as int));
    }
    assert(p@ =~= p@.take(m as int));
    true
}

/// Whether two texts hold the same characters.
pub fn same_text(a: &str, b: &str) -> (r: bool)
    ensures
        r == (a@ == b@),
{
    let equal_len = a.unicode_len() == b.unicode_len();
    let r = equal_len && has_prefix(a, b);
    proof {
        if equal_len && r {
            assert(a@ =~= a@.subrange(0, b@.len() as int));
        }
    }
    r
}

/// Whether `a` comes strictly before `b` in text order.
pub fn text_less(a: &str, b: &str) -> (r: bool)
    ensures
        r == text_lt(a@, b@),
{
    let n = a.unicode_len();
    let m = b.unicode_len();
    let mut i: usize = 0;
    assert(a@.skip(0) =~= a@);
    assert(b@.skip(0) =~= b@);
    while i < n && i < m
        invariant
            n == a@.len(),
            m == b@.len(),
            i <= n,
            i <= m,
            text_lt(a@, b@) == text_lt(a@.skip(i as int), b@.skip(i as int)),
        decreases n - i,
    {
        let x = a.get_char(i);
        let y = b.get_char(i);
        if x != y {
            return (x as u32) < (y as u32);
        }
        assert(a@.skip(i as int).drop_first() =~= a@.skip(i + 1));
        assert(b@.skip(i as int).drop_first() =~= b@.skip(i + 1));
        i = i + 1;
    }
    i < m
}

/// Text order is irreflexive.
pub proof fn lemma_text_lt_irreflexive(a: Seq<char>)
    ensures
        !text_lt(a, a),
    decreases a.len(),
{
    if a.len() > 0 {
        lemma_text_lt_irreflexive(a.drop_first());
    }
}

/// Text order is transitive.
pub proof fn lemma_text_lt_transitive(a: Seq<char>, b: Seq<char>, c: Seq<char>)
    requires
        text_lt(a, b),
        text_lt(b, c),
    ensures
        text_lt(a, c),
    decreases a.len(),
{
    if a.len() > 0 && b.len() > 0 && c.len() > 0 && a[0] == b[0] && b[0] == c[0] {
        lemma_text_lt_transitive(a.drop_first(), b.drop_first(), c.drop_first());
    }
}

/// Text order is total: of two different texts, one comes first.
pub proof fn lemma_text_lt_total(a: Seq<char>, b: Seq<char>)
    requires
        a != b,
    ensures
        text_lt(a, b) || text_lt(b, a),
    decreases a.len(),
{
    if a.len() > 0 && b.len() > 0 && a[0] == b[0] {
        if a.drop_first() == b.drop_first() {
            assert(a =~= seq![a[0]] + a.drop_first());
            assert(b =~= seq![b[0]] + b.drop_first());
        }
        lemma_text_lt_total(a.drop_first(), b.drop_first());
    } else if a.len() == 0 && b.len() == 0 {
        assert(a =~= b);
    } else if a.len() > 0 && b.len() > 0 {
        char_u32_cast(a[0], a[0] as u32);
        char_u32_cast(b[0], b[0] as u32);
    }
}

/// Text order is asymmetric.
pub proof fn lemma_text_lt_asymmetric(a: Seq<char>, b: Seq<char>)
    requires
        text_lt(a, b),
    ensures
        !text_lt(b, a),
{
    if text_lt(b, a) {
        lemma_text_lt_transitive(a, b, a);
        lemma_text_lt_irreflexive(a);
    }
}

/// Whether the line ends in a whitespace character.
pub fn ends_with_space(line: &str) -> (r: bool)
    ensures
        r == ends_in_space(line@),
{
    let n = line.unicode_len();
    n > 0 && is_space(line.get_char(n - 1))
}

/// The text of `s` after its first `n` characters.
pub fn suffix_after(s: &str, n: usize) -> (r: String)
    requires
        n <= s@.len(),
    ensures
        r@ == s@.skip(n as int),
{
    let len = s.unicode_len();
    let r = s.substring_char(n, len).to_owned();
    assert(s@.subrange(n as int, len as int) =~= s@.skip(n as int));
    r
}

/// A text without whitespace.
pub open spec fn no_space(t: Seq<char>) -> bool {
    forall|i: int| 0 <= i < t.len() ==> !white_space(#[trigger] t[i])
}

/// A word typed after whitespace (or at the start) is one more word.
pub proof fn lemma_words_extend(s: Seq<char>, t: Seq<char>)
    requires
        s.len() == 0 || white_space(s.last()),
        t.len() > 0,
        no_space(t),
    ensures
        words(s + t) == words(s).push(t),
    decreases t.len(),
{
    let u = s + t;
    if t.len() == 1 {
        assert(u.drop_last() =~= s);
        assert(u.last() == t[0]);
        assert(t =~= seq![t[0]]);
        if s.len() > 0 {
            assert(u[u.len() - 2] == s.last());
        }
    } else {
        let t0 = t.drop_last();
        lemma_words_extend(s, t0);
        assert(u.drop_last() =~= s + t0);
        assert(u.last() == t[t.len() - 1]);
        assert(u[u.len() - 2] == t[t.len() - 2]);
        assert(t0.push(t.last()) =~= t);
    }
}

/// Whitespace typed after the words adds no word.
pub proof fn lemma_words_space(s: Seq<char>, c: char)
    requires
        white_space(c),
    ensures
        words(s.push(c)) == words(s),
        ends_in_space(s.push(c)),
{
    assert(s.push(c).drop_last() =~= s);
}

} // verus!
