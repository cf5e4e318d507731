//! Character-level text operations, stated over `Seq<char>`.

use vstd::prelude::*;

verus! {

/// The views of a sequence of strings.
pub open spec fn views(v: Seq<String>) -> Seq<Seq<char>> {
    v.map_values(|s: String| s@)
}

/// Whether `c` has the Unicode `White_Space` property, as `char::is_whitespace`
/// reports it: the 25 code points U+0009 to U+000D, U+0020, U+0085, U+00A0,
/// U+1680, U+2000 to U+200A, U+2028, U+2029, U+202F, U+205F and U+3000.
pub open spec fn is_white_space(c: char) -> bool {
    let n = c as int;
    ||| 0x9 <= n <= 0xd
    ||| n == 0x20
    ||| n == 0x85
    ||| n == 0xa0
    ||| n == 0x1680
    ||| 0x2000 <= n <= 0x200a
    ||| n == 0x2028
    ||| n == 0x2029
    ||| n == 0x202f
    ||| n == 0x205f
    ||| n == 0x3000
}

/// `char::is_whitespace`, by the list of `is_white_space`.
pub fn char_is_whitespace(c: char) -> (b: bool)
    ensures
        b == is_white_space(c),
{
    ('\u{9}' <= c && c <= '\u{d}') || c == ' ' || c == '\u{85}' || c == '\u{a0}' || c == '\u{1680}'
        || ('\u{2000}' <= c && c <= '\u{200a}') || c == '\u{2028}' || c == '\u{2029}' || c == '\u{202f}'
        || c == '\u{205f}' || c == '\u{3000}'
}

/// Collects the characters of a string slice (`str::chars`).
#[verifier::external_body]
pub(crate) fn chars_of(s: &str) -> (v: Vec<char>)
    ensures
        v@ == s@,
{
    s.chars().collect()
}

/// Appends one character to a string (`String::push`).
#[verifier::external_body]
pub(crate) fn push_char(s: &mut String, c: char)
    ensures
        final(s)@ == old(s)@.push(c),
{
    s.push(c)
}

/// Builds a string from a slice of characters.
pub fn string_of_chars(v: &[char]) -> (s: String)
    ensures
        s@ == v@,
{
    let mut s = String::new();
    let mut i: usize = 0;
    while i < v.len()
        invariant
            i <= v.len(),
            s@ == v@.subrange(0, i as int),
        decreases v.len() - i,
    {
        push_char(&mut s, v[i]);
        assert(v@.subrange(0, i + 1) == v@.subrange(0, i as int).push(v@[i as int]));
        i = i + 1;
    }
    assert(v@.subrange(0, v.len() as int) == v@);
    s
}

/// Owned copy of a string slice.
pub fn owned(s: &str) -> (r: String)
    ensures
        r@ == s@,
{
    String::from_str(s)
}

/// Equality of two strings by their characters.
pub fn str_eq(a: &str, b: &str) -> (r: bool)
    ensures
        r == (a@ == b@),
{
    let x = chars_of(a);
    let y = chars_of(b);
    if x.len() != y.len() {
        return false;
    }
    let mut i: usize = 0;
    while i < x.len()
        invariant
            x@ == a@,
            y@ == b@,
            x.len() == y.len(),
            i <= x.len(),
            forall|j: int| 0 <= j < i ==> x@[j] == y@[j],
        decreases x.len() - i,
    {
        if x[i] != y[i] {
            return false;
        }
        i = i + 1;
    }
    assert(x@ =~= y@);
    true
}

/// The text `String::from_utf8_lossy` makes of some bytes: each invalid
/// sequence replaced by U+FFFD.
pub uninterp spec fn lossy_text(b: Seq<u8>) -> Seq<char>;

/// Calls `String::from_utf8_lossy`; valid UTF-8 comes back decoded.
#[verifier::external_body]
pub(crate) fn from_utf8_lossy(b: &[u8]) -> (r: String)
    ensures
        r@ == lossy_text(b@),
        vstd::utf8::valid_utf8(b@) ==> r@ == vstd::utf8::decode_utf8(b@),
{
    String::from_utf8_lossy(b).into_owned()
}

/// Calls `String::from_utf8`, which fails exactly on bytes that are not UTF-8.
#[verifier::external_body]
pub(crate) fn from_utf8(b: Vec<u8>) -> (r: Option<String>)
    ensures
        r is Some <==> vstd::utf8::valid_utf8(b@),
        r matches Some(s) ==> s@ == vstd::utf8::decode_utf8(b@),
{
    String::from_utf8(b).ok()
}

/// Whether `s` is among the strings of `v` (`Vec::contains`).
pub fn contains_string(v: &Vec<String>, s: &str) -> (r: bool)
    ensures
        r == views(v@).contains(s@),
{
    let mut i: usize = 0;
    while i < v.len()
        invariant
            i <= v.len(),
            forall|j: int| 0 <= j < i ==> v@[j]@ != s@,
        decreases v.len() - i,
    {
        if str_eq(v[i].as_str(), s) {
            assert(views(v@)[i as int] == s@);
            return true;
        }
        i = i + 1;
    }
    assert forall|j: int| 0 <= j < views(v@).len() implies views(v@)[j] != s@ by {
        assert(views(v@)[j] == v@[j]@);
    }
    false
}

/// The text `capitalize::Capitalize::capitalize` makes of `s`: its first
/// character in title case, the rest in lower case.
pub uninterp spec fn capitalized(s: Seq<char>) -> Seq<char>;

/// Calls `capitalize::Capitalize::capitalize`.
#[verifier::external_body]
pub(crate) fn capitalize(s: &str) -> (r: String)
    ensures
        r@ == capitalized(s@),
{
    capitalize::Capitalize::capitalize(&s)
}

// ---------------------------------------------------------------- split

/// The pieces of `s` between occurrences of `c`, as `str::split` with a
/// character pattern yields them: there is always at least one piece.
pub open spec fn split_on(s: Seq<char>, c: char) -> Seq<Seq<char>>
    decreases s.len(),
{
    if s.len() == 0 {
        seq![Seq::<char>::empty()]
    } else {
        let p = split_on(s.drop_last(), c);
        if s.last() == c {
            p.push(Seq::<char>::empty())
        } else {
            p.update(p.len() - 1, p.last().push(s.last()))
        }
    }
}

pub proof fn lemma_split_nonempty(s: Seq<char>, c: char)
    ensures
        split_on(s, c).len() >= 1,
    decreases s.len(),
{
    if s.len() > 0 {
        lemma_split_nonempty(s.drop_last(), c);
    }
}

/// The first piece of `split_on(s, c)`: everything before the first `c`.
pub open spec fn before_first(s: Seq<char>, c: char) -> Seq<char> {
    split_on(s, c)[0]
}

/// `str::split` with a character pattern, collected into owned strings.
pub fn split_char(s: &str, c: char) -> (r: Vec<String>)
    ensures
        views(r@) == split_on(s@, c),
        r@.len() >= 1,
{
    let cs = chars_of(s);
    let mut pieces: Vec<String> = Vec::new();
    let mut cur: Vec<char> = Vec::new();
    let mut i: usize = 0;
    proof {
        assert(cs@.subrange(0, 0) =~= Seq::<char>::empty());
    }
    while i < cs.len()
        invariant
            cs@ == s@,
            i <= cs.len(),
            views(pieces@).push(cur@) == split_on(cs@.subrange(0, i as int), c),
        decreases cs.len() - i,
    {
        let ghost pre = cs@.subrange(0, i as int);
        let ghost next = cs@.subrange(0, i + 1);
        assert(next.drop_last() == pre);
        assert(next.last() == cs@[i as int]);
        if cs[i] == c {
            let piece = string_of_chars(cur.as_slice());
            let ghost before = pieces@;
            pieces.push(piece);
            cur = Vec::new();
            assert(views(pieces@) =~= views(before).push(piece@));
        } else {
            cur.push(cs[i]);
        }
        i = i + 1;
    }
    assert(cs@.subrange(0, cs.len() as int) == cs@);
    let last = string_of_chars(cur.as_slice());
    let ghost before = pieces@;
    pieces.push(last);
    assert(views(pieces@) =~= views(before).push(cur@));
    pieces
}


// ---------------------------------------------------------------- join

/// The pieces joined with `sep` between each two neighbours.
pub open spec fn join(parts: Seq<Seq<char>>, sep: Seq<char>) -> Seq<char>
    decreases parts.len(),
{
    if parts.len() == 0 {
        Seq::<char>::empty()
    } else if parts.len() == 1 {
        parts[0]
    } else {
        join(parts.drop_last(), sep) + sep + parts.last()
    }
}

/// Joins the strings with `sep` between each two neighbours.
pub fn join_strs(parts: &Vec<String>, sep: &str) -> (r: String)
    ensures
        r@ == join(views(parts@), sep@),
{
    let mut r = String::new();
    let mut i: usize = 0;
    while i < parts.len()
        invariant
            i <= parts.len(),
            r@ == join(views(parts@.subrange(0, i as int)), sep@),
        decreases parts.len() - i,
    {
        let ghost pre = views(parts@.subrange(0, i as int));
        let ghost next = views(parts@.subrange(0, i + 1));
        assert(next.drop_last() =~= pre);
        assert(next.last() == parts@[i as int]@);
        if i > 0 {
            r.append(sep);
        } else {
            assert(pre.len() == 0);
        }
        r.append(parts[i].as_str());
        i = i + 1;
    }
    assert(parts@.subrange(0, parts.len() as int) == parts@);
    r
}

// ---------------------------------------------------------------- trim

/// `s` without its leading white space.
pub open spec fn trim_start(s: Seq<char>) -> Seq<char>
    decreases s.len(),
{
    if s.len() > 0 && is_white_space(s[0]) {
        trim_start(s.drop_first())
    } else {
        s
    }
}

/// `s` without its trailing white space.
pub open spec fn trim_end(s: Seq<char>) -> Seq<char>
    decreases s.len(),
{
    if s.len() > 0 && is_white_space(s.last()) {
        trim_end(s.drop_last())
    } else {
        s
    }
}

/// `s` without leading and trailing white space (`str::trim`).
pub open spec fn trim(s: Seq<char>) -> Seq<char> {
    trim_end(trim_start(s))
}

/// `str::trim`, into an owned string.
pub fn trim_str(s: &str) -> (r: String)
    ensures
        r@ == trim(s@),
{
    let cs = chars_of(s);
    let mut lo: usize = 0;
    assert(cs@.skip(0) =~= cs@);
    while lo < cs.len() && char_is_whitespace(cs[lo])
        invariant
            cs@ == s@,
            lo <= cs.len(),
            trim_start(cs@) == trim_start(cs@.skip(lo as int)),
        decreases cs.len() - lo,
    {
        assert(cs@.skip(lo as int).drop_first() =~= cs@.skip(lo + 1));
        lo = lo + 1;
    }
    assert(trim_start(cs@) == cs@.skip(lo as int));
    let mut hi: usize = cs.len();
    while hi > lo && char_is_whitespace(cs[hi - 1])
        invariant
            cs@ == s@,
            lo <= hi <= cs.len(),
            trim_end(cs@.skip(lo as int)) == trim_end(cs@.subrange(lo as int, hi as int)),
        decreases hi,
    {
        assert(cs@.subrange(lo as int, hi as int).drop_last() =~= cs@.subrange(lo as int, hi - 1));
        hi = hi - 1;
    }
    assert(cs@.skip(lo as int) =~= cs@.subrange(lo as int, cs.len() as int));
    let ghost mid = cs@.subrange(lo as int, hi as int);
    assert(trim_end(mid) == mid);
    string_of_chars(slice_range(&cs, lo, hi))
}

/// The characters `v[lo..hi]`.
pub fn slice_range(v: &Vec<char>, lo: usize, hi: usize) -> (r: &[char])
    requires
        lo <= hi <= v.len(),
    ensures
        r@ == v@.subrange(lo as int, hi as int),
{
    vstd::slice::slice_subrange(v.as_slice(), lo, hi)
}

// ---------------------------------------------------------------- replace

/// `s` with each non-overlapping occurrence of `pat`, scanned from the left,
/// replaced by `rep` (`str::replace` with a non-empty pattern).
pub open spec fn replace(s: Seq<char>, pat: Seq<char>, rep: Seq<char>) -> Seq<char>
    decreases s.len(),
{
    if pat.len() == 0 || s.len() < pat.len() {
        s
    } else if s.subrange(0, pat.len() as int) == pat {
        rep + replace(s.skip(pat.len() as int), pat, rep)
    } else {
        seq![s[0]] + replace(s.drop_first(), pat, rep)
    }
}

/// Whether `pat` occurs in `s` at position `i`.
pub open spec fn occurs_at(s: Seq<char>, pat: Seq<char>, i: int) -> bool {
    0 <= i && i + pat.len() <= s.len() && s.subrange(i, i + pat.len()) == pat
}

fn matches_at(cs: &Vec<char>, pat: &Vec<char>, i: usize) -> (r: bool)
    requires
        i <= cs.len(),
    ensures
        r == occurs_at(cs@, pat@, i as int),
{
    if pat.len() > cs.len() - i {
        return false;
    }
    let mut j: usize = 0;
    while j < pat.len()
        invariant
            i + pat.len() <= cs.len(),
            j <= pat.len(),
            forall|k: int| 0 <= k < j ==> cs@[i + k] == pat@[k],
        decreases pat.len() - j,
    {
        if cs[i + j] != pat[j] {
            assert(cs@.subrange(i as int, i + pat.len())[j as int] != pat@[j as int]);
            return false;
        }
        j = j + 1;
    }
    assert(cs@.subrange(i as int, i + pat.len()) =~= pat@);
    true
}

/// `str::replace` with a non-empty string pattern.
pub fn replace_str(s: &str, pat: &str, rep: &str) -> (r: String)
    requires
        pat@.len() > 0,
    ensures
        r@ == replace(s@, pat@, rep@),
{
    let cs = chars_of(s);
    let ps = chars_of(pat);
    let mut out = String::new();
    let mut i: usize = 0;
    assert(cs@.skip(0) =~= cs@);
    assert(out@ + replace(s@, pat@, rep@) =~= replace(s@, pat@, rep@));
    while i < cs.len()
        invariant
            cs@ == s@,
            ps@ == pat@,
            ps@.len() > 0,
            i <= cs.len(),
            out@ + replace(cs@.skip(i as int), pat@, rep@) == replace(s@, pat@, rep@),
        decreases cs.len() - i,
    {
        let ghost rest = cs@.skip(i as int);
        if matches_at(&cs, &ps, i) {
            assert(rest.subrange(0, ps@.len() as int) =~= cs@.subrange(i as int, i + ps@.len()));
            assert(rest.skip(ps@.len() as int) =~= cs@.skip(i + ps@.len()));
            let ghost before = out@;
            out.append(rep);
            assert(out@ + replace(cs@.skip(i + ps@.len()), pat@, rep@) =~= before + replace(rest, pat@, rep@)) by {
                assert(replace(rest, pat@, rep@) == rep@ + replace(rest.skip(ps@.len() as int), pat@, rep@));
            }
            i = i + ps.len();
        } else {
            proof {
                if rest.len() >= ps@.len() {
                    assert(rest.subrange(0, ps@.len() as int) =~= cs@.subrange(i as int, i + ps@.len()));
                }
            }
            assert(rest.drop_first() =~= cs@.skip(i + 1));
            let ghost before = out@;
            push_char(&mut out, cs[i]);
            assert(replace(rest, pat@, rep@) =~= seq![cs@[i as int]] + replace(rest.drop_first(), pat@, rep@)) by {
                if rest.len() < ps@.len() {
                    assert(replace(rest.drop_first(), pat@, rep@) == rest.drop_first());
                    assert(rest =~= seq![cs@[i as int]] + rest.drop_first());
                }
            }
            assert(out@ + replace(cs@.skip(i + 1), pat@, rep@) =~= before + replace(rest, pat@, rep@));
            i = i + 1;
        }
    }
    assert(cs@.skip(cs.len() as int) =~= Seq::<char>::empty());
    assert(out@ =~= out@ + Seq::<char>::empty());
    out
}

// ---------------------------------------------------------------- search

/// Whether `pat` occurs somewhere in `s` (`str::contains` with a string pattern).
pub open spec fn contains_seq(s: Seq<char>, pat: Seq<char>) -> bool {
    exists|i: int| occurs_at(s, pat, i)
}

/// `str::contains` with a string pattern.
pub fn contains_str(s: &str, pat: &str) -> (r: bool)
    ensures
        r == contains_seq(s@, pat@),
{
    let cs = chars_of(s);
    let ps = chars_of(pat);
    let mut i: usize = 0;
    while i < cs.len()
        invariant
            cs@ == s@,
            ps@ == pat@,
            i <= cs.len(),
            forall|k: int| 0 <= k < i ==> !occurs_at(s@, pat@, k),
        decreases cs.len() - i,
    {
        if matches_at(&cs, &ps, i) {
            return true;
        }
        i = i + 1;
    }
    if matches_at(&cs, &ps, i) {
        return true;
    }
    assert forall|k: int| !occurs_at(s@, pat@, k) by {
        if k > cs.len() {
        }
    }
    false
}

/// `str::contains` with a character pattern.
pub fn contains_char(s: &str, c: char) -> (r: bool)
    ensures
        r == s@.contains(c),
{
    let cs = chars_of(s);
    let mut i: usize = 0;
    while i < cs.len()
        invariant
            cs@ == s@,
            i <= cs.len(),
            forall|k: int| 0 <= k < i ==> cs@[k] != c,
        decreases cs.len() - i,
    {
        if cs[i] == c {
            return true;
        }
        i = i + 1;
    }
    false
}

/// Whether `s` begins with `c` (`str::starts_with` with a character).
pub fn starts_with_char(s: &str, c: char) -> (r: bool)
    ensures
        r == (s@.len() > 0 && s@[0] == c),
{
    let cs = chars_of(s);
    cs.len() > 0 && cs[0] == c
}

/// Whether `s` ends with `c` (`str::ends_with` with a character).
pub fn ends_with_char(s: &str, c: char) -> (r: bool)
    ensures
        r == (s@.len() > 0 && s@.last() == c),
{
    let cs = chars_of(s);
    cs.len() > 0 && cs[cs.len() - 1] == c
}

// ---------------------------------------------------------------- order

/// Lexicographic order of character sequences by code point. This is the
/// order of `str`'s `Ord`, which compares the UTF-8 bytes, since UTF-8 keeps
/// the order of code points.
pub open spec fn seq_lt(a: Seq<char>, b: Seq<char>) -> bool
    decreases a.len(),
{
    if b.len() == 0 {
        false
    } else if a.len() == 0 {
        true
    } else if (a[0] as int) < (b[0] as int) {
        true
    } else if a[0] == b[0] {
        seq_lt(a.drop_first(), b.drop_first())
    } else {
        false
    }
}

pub proof fn lemma_lt_irreflexive(a: Seq<char>)
    ensures
        !seq_lt(a, a),
    decreases a.len(),
{
    if a.len() > 0 {
        lemma_lt_irreflexive(a.drop_first());
    }
}

pub proof fn lemma_lt_total(a: Seq<char>, b: Seq<char>)
    ensures
        a != b ==> seq_lt(a, b) || seq_lt(b, a),
        !(seq_lt(a, b) && seq_lt(b, a)),
    decreases a.len(),
{
    if a.len() > 0 && b.len() > 0 {
        lemma_lt_total(a.drop_first(), b.drop_first());
        if a[0] == b[0] {
            if a != b {
                assert(a =~= seq![a[0]] + a.drop_first());
                assert(b =~= seq![b[0]] + b.drop_first());
            }
        } else {
            assert((a[0] as int) != (b[0] as int));
        }
    } else if a.len() == 0 && b.len() == 0 {
        assert(a =~= b);
    }
}

pub proof fn lemma_lt_transitive(a: Seq<char>, b: Seq<char>, c: Seq<char>)
    requires
        seq_lt(a, b),
        seq_lt(b, c),
    ensures
        seq_lt(a, c),
    decreases a.len(),
{
    if a.len() > 0 && b.len() > 0 && c.len() > 0 {
        if a[0] == b[0] && b[0] == c[0] {
            lemma_lt_transitive(a.drop_first(), b.drop_first(), c.drop_first());
        }
    }
}

/// `<` on strings.
pub fn str_lt(a: &str, b: &str) -> (r: bool)
    ensures
        r == seq_lt(a@, b@),
{
    let x = chars_of(a);
    let y = chars_of(b);
    let mut i: usize = 0;
    assert(x@.skip(0) =~= x@);
    assert(y@.skip(0) =~= y@);
    while i < x.len() && i < y.len() && x[i] == y[i]
        invariant
            x@ == a@,
            y@ == b@,
            i <= x.len(),
            i <= y.len(),
            seq_lt(a@, b@) == seq_lt(x@.skip(i as int), y@.skip(i as int)),
        decreases x.len() - i,
    {
        assert(x@.skip(i as int).drop_first() =~= x@.skip(i + 1));
        assert(y@.skip(i as int).drop_first() =~= y@.skip(i + 1));
        i = i + 1;
    }
    if i == y.len() {
        false
    } else if i == x.len() {
        true
    } else {
        assert(x@.skip(i as int)[0] == x@[i as int]);
        assert(y@.skip(i as int)[0] == y@[i as int]);
        x[i] < y[i]
    }
}

// ---------------------------------------------------------------- UTF-8 width

/// Number of bytes UTF-8 takes for `c` (`char::len_utf8`).
pub open spec fn char_width(c: char) -> nat {
    if (c as u32) < 0x80 {
        1
    } else if (c as u32) < 0x800 {
        2
    } else if (c as u32) < 0x10000 {
        3
    } else {
        4
    }
}

/// Number of bytes UTF-8 takes for `s` (`str::len`).
pub open spec fn byte_len(s: Seq<char>) -> nat
    decreases s.len(),
{
    if s.len() == 0 {
        0
    } else {
        byte_len(s.drop_last()) + char_width(s.last())
    }
}

fn width_of(c: char) -> (w: usize)
    ensures
        w == char_width(c),
{
    let x = c as u32;
    if x < 0x80 {
        1
    } else if x < 0x800 {
        2
    } else if x < 0x10000 {
        3
    } else {
        4
    }
}

pub proof fn lemma_byte_len_mono(s: Seq<char>, i: int)
    requires
        0 <= i <= s.len(),
    ensures
        byte_len(s.take(i)) <= byte_len(s),
        byte_len(s) >= s.len(),
    decreases s.len(),
{
    if s.len() > 0 {
        if i < s.len() {
            lemma_byte_len_mono(s.drop_last(), i);
            assert(s.drop_last().take(i) =~= s.take(i));
        } else {
            assert(s.take(i) =~= s);
            lemma_byte_len_mono(s.drop_last(), 0);
        }
    }
}

/// The length in bytes of a string, at most `limit`: `min(byte_len(s), limit)`.
pub fn byte_len_capped(s: &str, limit: usize) -> (r: usize)
    ensures
        r == if byte_len(s@) < limit { byte_len(s@) } else { limit as nat },
{
    let cs = chars_of(s);
    if limit == 0 {
        return 0;
    }
    let mut n: usize = 0;
    let mut i: usize = 0;
    assert(cs@.take(0) =~= Seq::<char>::empty());
    while i < cs.len()
        invariant
            cs@ == s@,
            i <= cs.len(),
            n == byte_len(cs@.take(i as int)),
            n < limit,
        decreases cs.len() - i,
    {
        assert(cs@.take(i + 1).drop_last() =~= cs@.take(i as int));
        let w = width_of(cs[i]);
        if w >= limit - n {
            proof { lemma_byte_len_mono(cs@, i + 1); }
            return limit;
        }
        n = n + w;
        i = i + 1;
    }
    assert(cs@.take(cs.len() as int) =~= cs@);
    n
}

/// Whether some prefix of `s` takes exactly `n` bytes, that is, byte `n` is
/// a character boundary within `s` (`str::is_char_boundary`).
pub open spec fn is_boundary(s: Seq<char>, n: nat) -> bool {
    exists|k: int| 0 <= k <= s.len() && byte_len(s.take(k)) == n
}

/// The prefix of `s` that takes exactly `n` bytes (`&s[..n]`).
pub open spec fn byte_prefix(s: Seq<char>, n: nat) -> Seq<char> {
    s.take(choose|k: int| 0 <= k <= s.len() && byte_len(s.take(k)) == n)
}

pub proof fn lemma_byte_len_strict(s: Seq<char>, i: int, j: int)
    requires
        0 <= i < j <= s.len(),
    ensures
        byte_len(s.take(i)) < byte_len(s.take(j)),
    decreases j,
{
    assert(s.take(j).drop_last() =~= s.take(j - 1));
    if i < j - 1 {
        lemma_byte_len_strict(s, i, j - 1);
    }
}

/// `&s[..n]` into an owned string, or `None` where that slice would panic:
/// `n` past the end or not on a character boundary.
pub fn prefix_bytes(s: &str, n: usize) -> (r: Option<String>)
    ensures
        r is Some <==> is_boundary(s@, n as nat),
        r matches Some(p) ==> p@ == byte_prefix(s@, n as nat),
{
    let cs = chars_of(s);
    let mut m: usize = 0;
    let mut i: usize = 0;
    while i < cs.len() && m < n
        invariant
            cs@ == s@,
            i <= cs.len(),
            m == byte_len(cs@.take(i as int)),
            m <= n,
            forall|k: int| 0 <= k < i ==> byte_len(cs@.take(k)) < n,
        decreases cs.len() - i,
    {
        assert(cs@.take(i + 1).drop_last() =~= cs@.take(i as int));
        let w = width_of(cs[i]);
        if w > n - m {
            proof {
                assert forall|k: int| 0 <= k <= s@.len() implies byte_len(s@.take(k)) != n by {
                    if k > i {
                        if k > i + 1 {
                            lemma_byte_len_strict(s@, i + 1, k);
                        }
                    } else if k < i {
                    }
                }
            }
            return None;
        }
        m = m + w;
        i = i + 1;
    }
    if m == n {
        proof {
            let k = choose|k: int| 0 <= k <= s@.len() && byte_len(s@.take(k)) == n;
            if k < i {
                lemma_byte_len_strict(s@, k, i as int);
            } else if k > i {
                lemma_byte_len_strict(s@, i as int, k);
            }
        }
        Some(string_of_chars(slice_range(&cs, 0, i)))
    } else {
        proof {
            assert(i == cs.len());
            assert(cs@.take(i as int) =~= cs@);
            assert forall|k: int| 0 <= k <= s@.len() implies byte_len(s@.take(k)) != n by {
                if k < i {
                    lemma_byte_len_strict(s@, k, i as int);
                }
            }
        }
        None
    }
}

// ---------------------------------------------------------------- numbers

/// The decimal digit `d`.
pub open spec fn digit(d: nat) -> char {
    if d == 0 { '0' } else if d == 1 { '1' } else if d == 2 { '2' } else if d == 3 { '3' } else if d == 4 { '4' }
    else if d == 5 { '5' } else if d == 6 { '6' } else if d == 7 { '7' } else if d == 8 { '8' } else { '9' }
}

/// The decimal text of `n`.
pub open spec fn decimal(n: nat) -> Seq<char>
    decreases n,
{
    if n < 10 {
        seq![digit(n)]
    } else {
        decimal(n / 10).push(digit(n % 10))
    }
}

fn digit_char(d: u64) -> (c: char)
    requires
        d < 10,
    ensures
        c == digit(d as nat),
{
    if d == 0 { '0' } else if d == 1 { '1' } else if d == 2 { '2' } else if d == 3 { '3' } else if d == 4 { '4' }
    else if d == 5 { '5' } else if d == 6 { '6' } else if d == 7 { '7' } else if d == 8 { '8' } else { '9' }
}

/// `n` in decimal.
pub fn decimal_text(n: u64) -> (r: String)
    ensures
        r@ == decimal(n as nat),
    decreases n,
{
    if n < 10 {
        let mut r = String::new();
        push_char(&mut r, digit_char(n));
        r
    } else {
        let mut r = decimal_text(n / 10);
        push_char(&mut r, digit_char(n % 10));
        r
    }
}

/// A copy of some strings.
pub fn copy_strings(v: &Vec<String>) -> (r: Vec<String>)
    ensures
        r@ == v@,
{
    let mut r: Vec<String> = Vec::new();
    let mut i: usize = 0;
    while i < v.len()
        invariant
            i <= v.len(),
            r@ == v@.take(i as int),
        decreases v.len() - i,
    {
        r.push(v[i].clone());
        assert(r@ =~= v@.take(i + 1));
        i = i + 1;
    }
    assert(v@.take(v.len() as int) =~= v@);
    r
}

// ---------------------------------------------------------------- laws

proof fn lemma_join_extend_last(p: Seq<Seq<char>>, sep: Seq<char>, x: char)
    requires
        p.len() >= 1,
    ensures
        join(p.update(p.len() - 1, p.last().push(x)), sep) == join(p, sep).push(x),
{
    let q = p.update(p.len() - 1, p.last().push(x));
    if p.len() == 1 {
        assert(q[0] == p[0].push(x));
    } else {
        assert(q.drop_last() =~= p.drop_last());
        assert(q.last() == p.last().push(x));
        assert(join(q, sep) == join(q.drop_last(), sep) + sep + q.last());
        assert(join(p, sep) == join(p.drop_last(), sep) + sep + p.last());
        assert(join(q, sep) =~= join(p, sep).push(x));
    }
}

/// Splitting at a character and joining the pieces with that character
/// gives the text back.
pub proof fn law_split_join(s: Seq<char>, c: char)
    ensures
        join(split_on(s, c), seq![c]) == s,
    decreases s.len(),
{
    if s.len() > 0 {
        let p = split_on(s.drop_last(), c);
        law_split_join(s.drop_last(), c);
        lemma_split_nonempty(s.drop_last(), c);
        if s.last() == c {
            let q = p.push(Seq::<char>::empty());
            assert(q.drop_last() =~= p);
            assert(join(q, seq![c]) == join(p, seq![c]) + seq![c] + Seq::<char>::empty());
            assert(join(q, seq![c]) =~= s);
        } else {
            lemma_join_extend_last(p, seq![c], s.last());
            assert(s.drop_last().push(s.last()) =~= s);
        }
    }
}

/// No piece of a split holds the character split at.
pub proof fn law_split_pieces(s: Seq<char>, c: char)
    ensures
        forall|i: int| 0 <= i < split_on(s, c).len() ==> !(#[trigger] split_on(s, c)[i]).contains(c),
    decreases s.len(),
{
    if s.len() > 0 {
        law_split_pieces(s.drop_last(), c);
        lemma_split_nonempty(s.drop_last(), c);
        let p = split_on(s.drop_last(), c);
        let q = split_on(s, c);
        assert forall|i: int| 0 <= i < q.len() implies !(#[trigger] q[i]).contains(c) by {
            if i < p.len() - 1 || (s.last() == c && i < p.len()) {
                assert(q[i] == p[i]);
            } else if s.last() != c {
                assert(q[i] == p.last().push(s.last()));
                assert(!p[p.len() - 1].contains(c));
                if q[i].contains(c) {
                    let j = choose|j: int| 0 <= j < q[i].len() && q[i][j] == c;
                    assert(p.last()[j] == c);
                }
            } else {
                assert(q[i] =~= Seq::<char>::empty());
            }
        }
    }
}

/// A text without the separator is a single piece.
pub proof fn lemma_split_no_sep(s: Seq<char>, c: char)
    requires
        !s.contains(c),
    ensures
        split_on(s, c) == seq![s],
    decreases s.len(),
{
    if s.len() == 0 {
        assert(s =~= Seq::<char>::empty());
    } else {
        let d = s.drop_last();
        assert(!d.contains(c)) by {
            if d.contains(c) {
                let j = choose|j: int| 0 <= j < d.len() && d[j] == c;
                assert(s[j] == c);
            }
        }
        assert(s.last() != c) by {
            assert(s[s.len() - 1] == s.last());
        }
        lemma_split_no_sep(d, c);
        assert(d.push(s.last()) =~= s);
        assert(seq![d].update(0, d.push(s.last())) =~= seq![s]);
    }
}

/// Around one separator, the pieces are those of the text before it
/// followed by those of the text after it.
pub proof fn lemma_split_concat(s: Seq<char>, t: Seq<char>, c: char)
    ensures
        split_on(s + seq![c] + t, c) == split_on(s, c) + split_on(t, c),
    decreases t.len(),
{
    let u = s + seq![c] + t;
    let a = split_on(s, c);
    if t.len() == 0 {
        assert(u.drop_last() =~= s);
        assert(u.last() == c);
        assert(a.push(Seq::<char>::empty()) =~= a + seq![Seq::<char>::empty()]);
    } else {
        let td = t.drop_last();
        assert(u.drop_last() =~= s + seq![c] + td);
        assert(u.last() == t.last());
        lemma_split_concat(s, td, c);
        lemma_split_nonempty(td, c);
        let b = split_on(td, c);
        if t.last() == c {
            assert((a + b).push(Seq::<char>::empty()) =~= a + b.push(Seq::<char>::empty()));
        } else {
            assert((a + b).update(a.len() + b.len() - 1, (a + b).last().push(t.last()))
                =~= a + b.update(b.len() - 1, b.last().push(t.last())));
        }
    }
}

/// Replacing a character by a text without it leaves none of it.
pub proof fn law_replace_removes(s: Seq<char>, c: char, rep: Seq<char>)
    requires
        !rep.contains(c),
    ensures
        !replace(s, seq![c], rep).contains(c),
    decreases s.len(),
{
    let pat = seq![c];
    if s.len() >= 1 {
        let r = replace(s, pat, rep);
        if s.subrange(0, 1) == pat {
            law_replace_removes(s.skip(1), c, rep);
            let t = replace(s.skip(1), pat, rep);
            assert(r == rep + t);
            if r.contains(c) {
                let j = choose|j: int| 0 <= j < r.len() && r[j] == c;
                if j < rep.len() {
                    assert(rep[j] == c);
                } else {
                    assert(t[j - rep.len()] == c);
                }
            }
        } else {
            law_replace_removes(s.drop_first(), c, rep);
            let t = replace(s.drop_first(), pat, rep);
            assert(s.subrange(0, 1) =~= seq![s[0]]);
            assert(s[0] != c);
            assert(r == seq![s[0]] + t);
            if r.contains(c) {
                let j = choose|j: int| 0 <= j < r.len() && r[j] == c;
                if j > 0 {
                    assert(t[j - 1] == c);
                }
            }
        }
    }
}

// ---------------------------------------------------------------- counting

/// How many times `c` occurs in `s`.
pub open spec fn count_char(s: Seq<char>, c: char) -> nat
    decreases s.len(),
{
    if s.len() == 0 {
        0
    } else {
        count_char(s.drop_last(), c) + if s.last() == c { 1nat } else { 0nat }
    }
}

pub proof fn lemma_count_concat(a: Seq<char>, b: Seq<char>, c: char)
    ensures
        count_char(a + b, c) == count_char(a, c) + count_char(b, c),
    decreases b.len(),
{
    if b.len() == 0 {
        assert(a + b =~= a);
    } else {
        lemma_count_concat(a, b.drop_last(), c);
        assert((a + b).drop_last() =~= a + b.drop_last());
        assert((a + b).last() == b.last());
    }
}

pub proof fn lemma_count_absent(s: Seq<char>, c: char)
    requires
        !s.contains(c),
    ensures
        count_char(s, c) == 0,
    decreases s.len(),
{
    if s.len() > 0 {
        assert(!s.drop_last().contains(c)) by {
            if s.drop_last().contains(c) {
                let j = choose|j: int| 0 <= j < s.drop_last().len() && s.drop_last()[j] == c;
                assert(s[j] == c);
            }
        }
        lemma_count_absent(s.drop_last(), c);
        assert(s[s.len() - 1] != c);
    }
}

} // verus!
