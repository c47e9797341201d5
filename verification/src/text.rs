//! Text primitives: characters of a string, Unicode classes, building strings,
//! UTF-8 decoding and trimming.
use vstd::prelude::*;
use vstd::utf8::{valid_utf8, decode_utf8};

verus! {

broadcast use vstd::string::axiom_spec_iter;

/// The characters of a string, in order.
pub fn chars_of(s: &str) -> (r: Vec<char>)
    ensures
        r@ == s@,
{
    let mut v: Vec<char> = Vec::new();
    for c in it: s.chars()
        invariant
            it.seq() == s@,
            v@ == it.seq().take(it.index() as int),
    {
        v.push(c);
        proof {
            assert(v@ =~= it.seq().take(it.index() + 1));
        }
    }
    v
}


/// `char::is_whitespace`'s set: the Unicode `White_Space` property.
pub open spec fn unicode_white_space(c: char) -> bool {
    let u = c as u32;
    (0x09 <= u <= 0x0d) || u == 0x20 || u == 0x85 || u == 0xa0 || u == 0x1680 || (0x2000 <= u
        <= 0x200a) || u == 0x2028 || u == 0x2029 || u == 0x202f || u == 0x205f || u == 0x3000
}

/// Whether a character has the Unicode `White_Space` property (as `char::is_whitespace`).
pub(crate) fn char_is_whitespace(c: char) -> (r: bool)
    ensures
        r == unicode_white_space(c),
{
    let u = c as u32;
    (0x09 <= u && u <= 0x0d) || u == 0x20 || u == 0x85 || u == 0xa0 || u == 0x1680 || (0x2000 <= u
        && u <= 0x200a) || u == 0x2028 || u == 0x2029 || u == 0x202f || u == 0x205f || u == 0x3000
}

/// Whether `char::is_alphabetic` holds of a character (the Unicode `Alphabetic` property).
pub uninterp spec fn unicode_alphabetic(c: char) -> bool;

/// An ASCII letter, `A`-`Z` or `a`-`z`.
pub open spec fn ascii_letter(c: char) -> bool {
    ('A' <= c && c <= 'Z') || ('a' <= c && c <= 'z')
}

/// `char::is_alphabetic`: the Unicode `Alphabetic` property of the character. Among
/// ASCII characters it holds of the letters and of nothing else.
#[verifier::external_body]
pub(crate) fn char_is_alphabetic(c: char) -> (r: bool)
    ensures
        r == unicode_alphabetic(c),
        (c as u32) < 128 ==> (r == ascii_letter(c)),
{
    c.is_alphabetic()
}

/// `String::from_iter` over characters: the string made of these characters.
#[verifier::external_body]
pub(crate) fn string_from_chars(cs: &[char]) -> (r: String)
    ensures
        r@ == cs@,
{
    cs.iter().collect()
}

/// `String::from_utf8`: the string whose UTF-8 encoding is `bytes`, when they are valid UTF-8.
#[verifier::external_body]
pub(crate) fn string_from_utf8(bytes: &[u8]) -> (r: Option<String>)
    ensures
        r is Some <==> valid_utf8(bytes@),
        r matches Some(s) ==> s@ == decode_utf8(bytes@),
{
    String::from_utf8(bytes.to_vec()).ok()
}

/// The characters `String::from_utf8_lossy` gives for these bytes (each invalid
/// sequence replaced by U+FFFD).
pub uninterp spec fn utf8_lossy(b: Seq<u8>) -> Seq<char>;

/// `String::from_utf8_lossy`: the bytes read as UTF-8, invalid sequences replaced
/// by U+FFFD; valid UTF-8 is decoded as it is.
#[verifier::external_body]
pub(crate) fn lossy_string(b: &[u8]) -> (r: String)
    ensures
        r@ == utf8_lossy(b@),
        valid_utf8(b@) ==> r@ == decode_utf8(b@),
{
    String::from_utf8_lossy(b).into_owned()
}

/// Index of the first character of `cs` that is not white space (or the length).
pub open spec fn trim_start(cs: Seq<char>) -> int {
    choose|i: int|
        0 <= i <= cs.len() && (forall|k: int| 0 <= k < i ==> unicode_white_space(#[trigger] cs[k]))
            && (i < cs.len() ==> !unicode_white_space(cs[i]))
}

/// `cs` without leading and trailing white space (`str::trim`).
pub open spec fn trim(cs: Seq<char>) -> Seq<char>
    decreases cs.len(),
{
    if cs.len() == 0 {
        cs
    } else if unicode_white_space(cs[0]) {
        trim(cs.drop_first())
    } else if unicode_white_space(cs.last()) {
        trim(cs.drop_last())
    } else {
        cs
    }
}

proof fn lemma_trim_bounds(cs: Seq<char>, a: int, b: int)
    requires
        0 <= a <= b <= cs.len(),
        forall|k: int| 0 <= k < a ==> unicode_white_space(#[trigger] cs[k]),
        forall|k: int| b <= k < cs.len() ==> unicode_white_space(#[trigger] cs[k]),
        a < b ==> !unicode_white_space(cs[a]) && !unicode_white_space(cs[b - 1]),
        a == b ==> b == cs.len(),
    ensures
        trim(cs) == cs.subrange(a, b),
    decreases cs.len(),
{
    if cs.len() == 0 {
        assert(cs.subrange(a, b) =~= cs);
    } else if unicode_white_space(cs[0]) {
        let t = cs.drop_first();
        lemma_trim_bounds(t, a - 1, b - 1);
        assert(t.subrange(a - 1, b - 1) =~= cs.subrange(a, b));
    } else if unicode_white_space(cs.last()) {
        let t = cs.drop_last();
        lemma_trim_bounds(t, a, b);
        assert(t.subrange(a, b) =~= cs.subrange(a, b));
    } else {
        if a > 0 {
            assert(unicode_white_space(cs[0]));
        }
        if b < cs.len() {
            assert(unicode_white_space(cs[cs.len() - 1]));
        }
        assert(cs.subrange(a, b) =~= cs);
    }
}

/// `str::trim`: the string without leading and trailing white space.
pub fn trimmed(s: &str) -> (r: String)
    ensures
        r@ == trim(s@),
{
    let cs = chars_of(s);
    let n = cs.len();
    let mut a: usize = 0;
    while a < n && char_is_whitespace(cs[a])
        invariant
            a <= n == cs@.len(),
            forall|k: int| 0 <= k < a ==> unicode_white_space(#[trigger] cs@[k]),
        decreases n - a,
    {
        a = a + 1;
    }
    let mut b: usize = n;
    while b > a && char_is_whitespace(cs[b - 1])
        invariant
            a <= b <= n == cs@.len(),
            forall|k: int| b <= k < n ==> unicode_white_space(#[trigger] cs@[k]),
        decreases b,
    {
        b = b - 1;
    }
    proof {
        lemma_trim_bounds(cs@, a as int, b as int);
    }
    string_from_chars(&cs.as_slice()[a..b])
}

// ------------------------------------------------------------------ order

/// The character sequences of some strings.
pub open spec fn strings_view(v: Seq<String>) -> Seq<Seq<char>> {
    v.map_values(|s: String| s@)
}

/// Lexicographic order of character sequences by code point: the order of `str`
/// and `String` (UTF-8 byte order is code point order).
pub open spec fn text_lt(x: Seq<char>, y: Seq<char>) -> bool
    decreases x.len(),
{
    if x.len() == 0 {
        y.len() > 0
    } else if y.len() == 0 {
        false
    } else if x[0] != y[0] {
        (x[0] as u32) < (y[0] as u32)
    } else {
        text_lt(x.drop_first(), y.drop_first())
    }
}

pub proof fn lemma_text_lt_irreflexive(x: Seq<char>)
    ensures
        !text_lt(x, x),
    decreases x.len(),
{
    if x.len() > 0 {
        lemma_text_lt_irreflexive(x.drop_first());
    }
}

pub proof fn lemma_text_lt_total(x: Seq<char>, y: Seq<char>)
    ensures
        x != y ==> text_lt(x, y) || text_lt(y, x),
        !(text_lt(x, y) && text_lt(y, x)),
    decreases x.len(),
{
    if x.len() > 0 && y.len() > 0 {
        if x[0] == y[0] {
            lemma_text_lt_total(x.drop_first(), y.drop_first());
            if x != y {
                assert(x.drop_first() != y.drop_first()) by {
                    if x.drop_first() == y.drop_first() {
                        assert(x =~= seq![x[0]] + x.drop_first());
                        assert(y =~= seq![y[0]] + y.drop_first());
                    }
                }
            }
        } else {
            assert((x[0] as u32) != (y[0] as u32)) by {
                vstd::utf8::char_u32_cast(x[0], x[0] as u32);
                vstd::utf8::char_u32_cast(y[0], y[0] as u32);
            }
        }
    } else if x.len() == 0 && y.len() == 0 {
        assert(x =~= y);
    }
}

pub proof fn lemma_text_lt_transitive(x: Seq<char>, y: Seq<char>, z: Seq<char>)
    requires
        text_lt(x, y),
        text_lt(y, z),
    ensures
        text_lt(x, z),
    decreases x.len(),
{
    if x.len() > 0 && y.len() > 0 && z.len() > 0 && x[0] == y[0] && y[0] == z[0] {
        lemma_text_lt_transitive(x.drop_first(), y.drop_first(), z.drop_first());
    }
}

/// Whether `x` comes before `y` in code point order.
pub fn chars_lt(x: &[char], y: &[char]) -> (r: bool)
    ensures
        r == text_lt(x@, y@),
{
    let mut i: usize = 0;
    proof {
        assert(x@.skip(0) =~= x@);
        assert(y@.skip(0) =~= y@);
        assert(x@.take(0) =~= y@.take(0));
    }
    while i < x.len() && i < y.len()
        invariant
            i <= x@.len(),
            i <= y@.len(),
            x@.take(i as int) == y@.take(i as int),
            text_lt(x@, y@) == text_lt(x@.skip(i as int), y@.skip(i as int)),
        decreases x@.len() - i,
    {
        if x[i] != y[i] {
            proof {
                assert(x@.skip(i as int)[0] == x@[i as int]);
                assert(y@.skip(i as int)[0] == y@[i as int]);
            }
            return (x[i] as u32) < (y[i] as u32);
        }
        proof {
            assert(x@.skip(i as int).drop_first() =~= x@.skip(i + 1));
            assert(y@.skip(i as int).drop_first() =~= y@.skip(i + 1));
            assert(x@.take(i + 1) =~= x@.take(i as int).push(x@[i as int]));
            assert(y@.take(i + 1) =~= y@.take(i as int).push(y@[i as int]));
        }
        i = i + 1;
    }
    i < y.len()
}

/// Whether two character sequences are equal.
pub fn chars_eq(x: &[char], y: &[char]) -> (r: bool)
    ensures
        r == (x@ == y@),
{
    if x.len() != y.len() {
        return false;
    }
    let mut i: usize = 0;
    while i < x.len()
        invariant
            i <= x@.len(),
            x@.len() == y@.len(),
            forall|j: int| 0 <= j < i ==> x@[j] == y@[j],
        decreases x@.len() - i,
    {
        if x[i] != y[i] {
            return false;
        }
        i = i + 1;
    }
    proof {
        assert(x@ =~= y@);
    }
    true
}

/// `r` lists each index of `names` once, by name in code point order, equal names in
/// index order: the order a stable sort by name gives.
pub open spec fn stable_by_text(names: Seq<Seq<char>>, r: Seq<usize>) -> bool {
    &&& r.len() == names.len()
    &&& forall|i: int| 0 <= i < r.len() ==> (#[trigger] r[i]) < names.len()
    &&& forall|i: int, j: int| 0 <= i < j < r.len() ==> #[trigger] r[i] != #[trigger] r[j]
    &&& forall|i: int, j: int|
        0 <= i < j < r.len() ==> !text_lt(names[#[trigger] r[j] as int], names[#[trigger] r[i] as int])
    &&& forall|i: int, j: int|
        0 <= i < j < r.len() && names[#[trigger] r[i] as int] == names[#[trigger] r[j] as int] ==> r[i] < r[j]
}

/// The indices of `names` in the order of a stable sort by name.
pub fn stable_order_by_text(names: &[String]) -> (r: Vec<usize>)
    ensures
        stable_by_text(strings_view(names@), r@),
{
    let ghost nv = strings_view(names@);
    let mut cs: Vec<Vec<char>> = Vec::new();
    let mut k: usize = 0;
    while k < names.len()
        invariant
            k <= names@.len(),
            nv == strings_view(names@),
            cs@.len() == k,
            forall|i: int| 0 <= i < k ==> (#[trigger] cs@[i])@ == nv[i],
        decreases names@.len() - k,
    {
        cs.push(chars_of(names[k].as_str()));
        k = k + 1;
    }
    let mut r: Vec<usize> = Vec::new();
    let mut k: usize = 0;
    while k < names.len()
        invariant
            k <= names@.len(),
            nv == strings_view(names@),
            cs@.len() == names@.len(),
            forall|i: int| 0 <= i < cs@.len() ==> (#[trigger] cs@[i])@ == nv[i],
            stable_by_text(nv.take(k as int), r@),
        decreases names@.len() - k,
    {
        let mut p: usize = 0;
        while p < r.len() && !chars_lt(cs[k].as_slice(), cs[r[p]].as_slice())
            invariant
                p <= r@.len(),
                k < cs@.len(),
                r@.len() == k,
                forall|i: int| 0 <= i < r@.len() ==> (#[trigger] r@[i]) < k,
                forall|i: int| 0 <= i < cs@.len() ==> (#[trigger] cs@[i])@ == nv[i],
                forall|q: int| 0 <= q < p ==> !text_lt(nv[k as int], nv[#[trigger] r@[q] as int]),
            decreases r@.len() - p,
        {
            p = p + 1;
        }
        let ghost old_r = r@;
        let ghost tk = nv.take(k as int);
        let ghost tk1 = nv.take(k + 1);
        proof {
            if p < old_r.len() {
                assert(text_lt(nv[k as int], nv[old_r[p as int] as int]));
            }
            assert forall|i: int| 0 <= i < old_r.len() implies tk1[old_r[i] as int] == nv[old_r[i] as int]
                && tk[old_r[i] as int] == nv[old_r[i] as int] by {
                assert(old_r[i] < k);
            }
        }
        r.insert(p, k);
        proof {
            let w = r@;
            assert(w =~= old_r.insert(p as int, k));
            assert forall|i: int| 0 <= i < w.len() implies (#[trigger] w[i]) < tk1.len() by {
                if i < p {
                    assert(w[i] == old_r[i]);
                } else if i > p {
                    assert(w[i] == old_r[i - 1]);
                }
            }
            assert forall|i: int, j: int| 0 <= i < j < w.len() implies #[trigger] w[i] != #[trigger] w[j] by {
                if i < p && j < p {
                    assert(w[i] == old_r[i] && w[j] == old_r[j]);
                } else if i < p && j == p {
                    assert(w[i] == old_r[i]);
                } else if i < p {
                    assert(w[i] == old_r[i] && w[j] == old_r[j - 1]);
                } else if i == p {
                    assert(w[j] == old_r[j - 1]);
                } else {
                    assert(w[i] == old_r[i - 1] && w[j] == old_r[j - 1]);
                }
            }
            assert forall|i: int, j: int| 0 <= i < j < w.len() implies !text_lt(
                tk1[#[trigger] w[j] as int],
                tk1[#[trigger] w[i] as int],
            ) by {
                if i < p && j < p {
                    assert(w[i] == old_r[i] && w[j] == old_r[j]);
                } else if i < p && j == p {
                    assert(w[i] == old_r[i]);
                } else if i < p {
                    assert(w[i] == old_r[i] && w[j] == old_r[j - 1]);
                } else if i == p {
                    assert(w[j] == old_r[j - 1]);
                    let x = nv[old_r[j - 1] as int];
                    if text_lt(x, nv[k as int]) {
                        if j - 1 == p {
                            lemma_text_lt_total(x, nv[k as int]);
                        } else {
                            lemma_text_lt_transitive(x, nv[k as int], nv[old_r[p as int] as int]);
                        }
                    }
                } else {
                    assert(w[i] == old_r[i - 1] && w[j] == old_r[j - 1]);
                }
            }
            assert forall|i: int, j: int|
                0 <= i < j < w.len() && tk1[#[trigger] w[i] as int] == tk1[#[trigger] w[j] as int] implies w[i]
                < w[j] by {
                if i < p && j < p {
                    assert(w[i] == old_r[i] && w[j] == old_r[j]);
                } else if i < p && j == p {
                    assert(w[i] == old_r[i]);
                } else if i < p {
                    assert(w[i] == old_r[i] && w[j] == old_r[j - 1]);
                } else if i == p {
                    assert(w[j] == old_r[j - 1]);
                    let x = nv[old_r[j - 1] as int];
                    if x == nv[k as int] {
                        lemma_text_lt_irreflexive(x);
                        if j - 1 > p {
                            lemma_text_lt_transitive(nv[k as int], nv[old_r[p as int] as int], x);
                        }
                    }
                } else {
                    assert(w[i] == old_r[i - 1] && w[j] == old_r[j - 1]);
                }
            }
        }
        k = k + 1;
    }
    proof {
        assert(nv.take(nv.len() as int) =~= nv);
    }
    r
}

} // verus!
