//! Small string utilities shared by search, the reports and the tree.

use vstd::prelude::*;
use vstd::string::StringExecFns;

verus! {

broadcast use vstd::string::group_string_axioms;

/// The characters of `s`, in order.
pub fn chars_of(s: &str) -> (v: Vec<char>)
    ensures
        v@ == s@,
{
    let mut v: Vec<char> = Vec::new();
    for c in it: s.chars()
        invariant
            it.seq() == s@,
            v.len() == it.index(),
            v@ == s@.take(v.len() as int),
    {
        proof {
            assert(s@.take(v.len() + 1) == s@.take(v.len() as int).push(c));
        }
        v.push(c);
    }
    proof {
        assert(s@.take(v.len() as int) =~= s@);
    }
    v
}

/// What `str::to_lowercase` gives back for a string: std's full Unicode
/// lowercase mapping, applied character by character (a final capital
/// sigma becomes `ς`). It depends on the characters alone.
pub uninterp spec fn lowercase_of(s: Seq<char>) -> Seq<char>;

/// `str::to_lowercase`. The contract names the result; it claims nothing
/// else of std's case tables.
#[verifier::external_body]
pub(crate) fn to_lowercase(s: &str) -> (r: String)
    ensures
        r@ == lowercase_of(s@),
{
    s.to_lowercase()
}

/// `String::push`: appends one character at the end.
#[verifier::external_body]
pub(crate) fn push_char(s: &mut String, c: char)
    ensures
        final(s)@ == old(s)@.push(c),
{
    s.push(c)
}

/// A string holding the characters `cs[from..to]`.
pub(crate) fn string_from_chars(cs: &[char], from: usize, to: usize) -> (r: String)
    requires
        from <= to <= cs@.len(),
    ensures
        r@ == cs@.subrange(from as int, to as int),
{
    let mut r = String::new();
    let mut i = from;
    while i < to
        invariant
            from <= i <= to <= cs@.len(),
            r@ == cs@.subrange(from as int, i as int),
        decreases to - i,
    {
        push_char(&mut r, cs[i]);
        proof {
            assert(cs@.subrange(from as int, i + 1) == cs@.subrange(from as int, i as int).push(
                cs@[i as int],
            ));
        }
        i = i + 1;
    }
    r
}

/// Whether `needle` occurs in `hay` as a contiguous run of characters
/// (an empty needle occurs everywhere).
pub open spec fn occurs_in(needle: Seq<char>, hay: Seq<char>) -> bool {
    exists|i: int|
        0 <= i && i + needle.len() <= hay.len() && #[trigger] hay.subrange(i, i + needle.len())
            == needle
}

/// Whether `needle` occurs in `hay` at position `i`.
fn occurs_at(needle: &[char], hay: &[char], i: usize) -> (b: bool)
    requires
        i + needle@.len() <= hay@.len(),
    ensures
        b == (hay@.subrange(i as int, i + needle@.len()) == needle@),
{
    let n = hay.len();
    let mut k: usize = 0;
    while k < needle.len()
        invariant
            k <= needle@.len(),
            n == hay@.len(),
            i + needle@.len() <= n,
            forall|m: int| 0 <= m < k ==> hay@[i + m] == needle@[m],
        decreases needle@.len() - k,
    {
        if hay[i + k] != needle[k] {
            proof {
                let sub = hay@.subrange(i as int, i + needle@.len());
                assert(sub[k as int] != needle@[k as int]);
            }
            return false;
        }
        k = k + 1;
    }
    proof {
        assert(hay@.subrange(i as int, i + needle@.len()) =~= needle@);
    }
    true
}

/// Whether `needle` occurs in `hay`: what `str::contains` answers for a
/// string pattern.
pub(crate) fn chars_contain(hay: &[char], needle: &[char]) -> (b: bool)
    ensures
        b == occurs_in(needle@, hay@),
{
    if needle.len() == 0 {
        proof {
            assert(hay@.subrange(0, 0int + needle@.len()) =~= needle@);
        }
        return true;
    }
    if needle.len() > hay.len() {
        return false;
    }
    let mut i: usize = 0;
    while needle.len() <= hay.len() - i
        invariant
            i <= hay@.len(),
            1 <= needle@.len() <= hay@.len(),
            forall|j: int|
                0 <= j < i ==> #[trigger] hay@.subrange(j, j + needle@.len()) != needle@,
        decreases hay@.len() - i,
    {
        if occurs_at(needle, hay, i) {
            return true;
        }
        i = i + 1;
    }
    proof {
        assert forall|j: int| 0 <= j && j + needle@.len() <= hay@.len() implies #[trigger] hay@.subrange(
            j,
            j + needle@.len(),
        ) != needle@ by {
            assert(j < i);
        }
    }
    false
}

/// Index of the last `.` in `name`, or -1 when there is none.
pub open spec fn last_dot(name: Seq<char>) -> int
    decreases name.len(),
{
    if name.len() == 0 {
        -1
    } else if name.last() == '.' {
        name.len() - 1
    } else {
        last_dot(name.drop_last())
    }
}

/// The key a file is grouped under by type: the text after the last `.`,
/// lowercased, or `(none)` when there is no dot or nothing follows it.
pub open spec fn extension_key_of(name: Seq<char>) -> Seq<char> {
    let d = last_dot(name);
    if 0 <= d && d + 1 < name.len() {
        lowercase_of(name.subrange(d + 1, name.len() as int))
    } else {
        "(none)"@
    }
}

/// The by-type key of a file name (see [`extension_key_of`]).
pub(crate) fn extension_key(name: &str) -> (k: String)
    ensures
        k@ == extension_key_of(name@),
{
    let cs = chars_of(name);
    let n = cs.len();
    let mut i = n;
    proof {
        assert(cs@.take(n as int) =~= cs@);
    }
    while i > 0 && cs[i - 1] != '.'
        invariant
            i <= n == cs@.len(),
            cs@ == name@,
            last_dot(cs@) == last_dot(cs@.take(i as int)),
        decreases i,
    {
        proof {
            assert(cs@.take(i as int).drop_last() =~= cs@.take(i - 1));
        }
        i = i - 1;
    }
    proof {
        if i > 0 {
            assert(cs@.take(i as int).last() == '.');
        } else {
            assert(cs@.take(0).len() == 0);
        }
    }
    if i > 0 && i < n {
        let suffix = string_from_chars(cs.as_slice(), i, n);
        to_lowercase(suffix.as_str())
    } else {
        proof {
            reveal_strlit("(none)");
        }
        String::from_str("(none)")
    }
}


/// `n` spaces (none when `n <= 0`).
pub open spec fn spaces(n: int) -> Seq<char> {
    Seq::new(if n > 0 { n as nat } else { 0 }, |i: int| ' ')
}

/// `s` padded with spaces on the right to `width` characters, as
/// `{:<width}` formats it.
pub open spec fn pad_right(s: Seq<char>, width: int) -> Seq<char> {
    s + spaces(width - s.len())
}

/// `s` padded with spaces on the left to `width` characters, as
/// `{:>width}` formats it.
pub open spec fn pad_left(s: Seq<char>, width: int) -> Seq<char> {
    spaces(width - s.len()) + s
}

/// Appends `n` spaces.
pub(crate) fn push_spaces(out: &mut String, n: usize)
    ensures
        final(out)@ == old(out)@ + spaces(n as int),
{
    let mut i: usize = 0;
    while i < n
        invariant
            i <= n,
            out@ == old(out)@ + spaces(i as int),
        decreases n - i,
    {
        push_char(out, ' ');
        proof {
            assert(spaces(i + 1) =~= spaces(i as int).push(' '));
        }
        i = i + 1;
    }
}

/// Number of characters of `s`.
pub(crate) fn char_count(s: &str) -> (n: usize)
    ensures
        n == s@.len(),
{
    chars_of(s).len()
}

/// Appends `s` padded on the right to `width` characters.
pub(crate) fn push_pad_right(out: &mut String, s: &str, width: usize)
    ensures
        final(out)@ == old(out)@ + pad_right(s@, width as int),
{
    let n = char_count(s);
    out.append(s);
    if n < width {
        push_spaces(out, width - n);
    } else {
        proof {
            assert(spaces(width - s@.len()) =~= Seq::<char>::empty());
        }
    }
    proof {
        assert(final(out)@ =~= old(out)@ + pad_right(s@, width as int));
    }
}

/// Appends `s` padded on the left to `width` characters.
pub(crate) fn push_pad_left(out: &mut String, s: &str, width: usize)
    ensures
        final(out)@ == old(out)@ + pad_left(s@, width as int),
{
    let n = char_count(s);
    if n < width {
        push_spaces(out, width - n);
    } else {
        proof {
            assert(spaces(width - s@.len()) =~= Seq::<char>::empty());
        }
    }
    out.append(s);
    proof {
        assert(final(out)@ =~= old(out)@ + pad_left(s@, width as int));
    }
}
/// Whether `c` has the Unicode `White_Space` property, which is what
/// `char::is_whitespace` and `str::trim` go by.
pub open spec fn is_space(c: char) -> bool {
    let u = c as u32;
    (0x9 <= u <= 0xd) || u == 0x20 || u == 0x85 || u == 0xa0 || u == 0x1680 || (0x2000 <= u
        <= 0x200a) || u == 0x2028 || u == 0x2029 || u == 0x202f || u == 0x205f || u == 0x3000
}

pub fn is_space_char(c: char) -> (b: bool)
    ensures
        b == is_space(c),
{
    let u = c as u32;
    (0x9 <= u && u <= 0xd) || u == 0x20 || u == 0x85 || u == 0xa0 || u == 0x1680 || (0x2000 <= u
        && u <= 0x200a) || u == 0x2028 || u == 0x2029 || u == 0x202f || u == 0x205f || u == 0x3000
}

/// `s` without its leading whitespace.
pub open spec fn trim_start_of(s: Seq<char>) -> Seq<char>
    decreases s.len(),
{
    if s.len() > 0 && is_space(s[0]) {
        trim_start_of(s.drop_first())
    } else {
        s
    }
}

/// `s` without its trailing whitespace.
pub open spec fn trim_end_of(s: Seq<char>) -> Seq<char>
    decreases s.len(),
{
    if s.len() > 0 && is_space(s.last()) {
        trim_end_of(s.drop_last())
    } else {
        s
    }
}

/// `s` without leading or trailing whitespace (`str::trim`).
pub open spec fn trim_of(s: Seq<char>) -> Seq<char> {
    trim_end_of(trim_start_of(s))
}

/// Whether `s` holds nothing but whitespace.
pub open spec fn is_blank(s: Seq<char>) -> bool {
    trim_of(s).len() == 0
}

/// The bounds `(i, j)` of `cs` once leading and trailing whitespace is cut.
pub(crate) fn trim_bounds(cs: &[char]) -> (r: (usize, usize))
    ensures
        r.0 <= r.1 <= cs@.len(),
        cs@.subrange(r.0 as int, r.1 as int) == trim_of(cs@),
{
    let n = cs.len();
    let mut i: usize = 0;
    proof {
        assert(cs@.subrange(0, n as int) =~= cs@);
    }
    while i < n && is_space_char(cs[i])
        invariant
            i <= n == cs@.len(),
            trim_start_of(cs@.subrange(i as int, n as int)) == trim_start_of(cs@),
        decreases n - i,
    {
        proof {
            assert(cs@.subrange(i as int, n as int).drop_first() =~= cs@.subrange(i + 1, n as int));
        }
        i = i + 1;
    }
    proof {
        assert(cs@.subrange(0, n as int) =~= cs@);
        assert(trim_start_of(cs@) == cs@.subrange(i as int, n as int));
    }
    let mut j: usize = n;
    while j > i && is_space_char(cs[j - 1])
        invariant
            i <= j <= n == cs@.len(),
            trim_start_of(cs@) == cs@.subrange(i as int, n as int),
            trim_end_of(cs@.subrange(i as int, j as int)) == trim_of(cs@),
        decreases j,
    {
        proof {
            assert(cs@.subrange(i as int, j as int).drop_last() =~= cs@.subrange(i as int, j - 1));
        }
        j = j - 1;
    }
    (i, j)
}

/// `str::trim`, into a new string.
pub fn trim(s: &str) -> (r: String)
    ensures
        r@ == trim_of(s@),
{
    let cs = chars_of(s);
    let (i, j) = trim_bounds(cs.as_slice());
    string_from_chars(cs.as_slice(), i, j)
}

/// Whether `s` is empty once trimmed.
pub fn blank(s: &str) -> (b: bool)
    ensures
        b == is_blank(s@),
{
    let cs = chars_of(s);
    let (i, j) = trim_bounds(cs.as_slice());
    i == j
}
} // verus!
