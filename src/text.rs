//! Character-level rules: how item titles become file names, and how a
//! container name is told apart from a dotted file name.
use vstd::prelude::*;
use vstd::string::*;

verus! {

/// Relies on `String::push`: the character is appended at the end.
pub assume_specification[ String::push ](s: &mut String, ch: char)
    ensures
        final(s)@ == old(s)@.push(ch),
;

/// `s` with every path separator taken out, the other characters kept in order.
pub open spec fn strip_separators(s: Seq<char>) -> Seq<char>
    decreases s.len(),
{
    if s.len() == 0 {
        s
    } else {
        let rest = strip_separators(s.drop_last());
        if s.last() == '/' {
            rest
        } else {
            rest.push(s.last())
        }
    }
}

/// Names that cannot stand for a file of their own in a directory.
pub open spec fn is_reserved_name(s: Seq<char>) -> bool {
    s.len() == 0 || s == seq!['.'] || s == seq!['.', '.']
}

/// The file name given to an item title: separators are removed, and a result
/// that is empty, `.` or `..` is wrapped in double quotes.
pub open spec fn sanitized(title: Seq<char>) -> Seq<char> {
    let s = strip_separators(title);
    if is_reserved_name(s) {
        seq!['"'] + s + seq!['"']
    } else {
        s
    }
}

/// Turns an item title into a flat, non-reserved file name.
pub fn sanitize_name(title: &str) -> (r: String)
    ensures
        r@ == sanitized(title@),
{
    let n = title.unicode_len();
    let mut out = String::new();
    let mut i: usize = 0;
    while i < n
        invariant
            n == title@.len(),
            i <= n,
            out@ == strip_separators(title@.subrange(0, i as int)),
        decreases n - i,
    {
        let c = title.get_char(i);
        if c != '/' {
            out.push(c);
        }
        assert(title@.subrange(0, i + 1).drop_last() =~= title@.subrange(0, i as int));
        i += 1;
    }
    assert(title@.subrange(0, n as int) =~= title@);
    if is_reserved(out.as_str()) {
        let mut quoted = String::new();
        quoted.push('"');
        let m = out.as_str().unicode_len();
        let mut j: usize = 0;
        while j < m
            invariant
                m == out@.len(),
                j <= m,
                quoted@ == seq!['"'] + out@.subrange(0, j as int),
            decreases m - j,
        {
            quoted.push(out.as_str().get_char(j));
            assert(out@.subrange(0, j + 1) =~= out@.subrange(0, j as int).push(out@[j as int]));
            j += 1;
        }
        quoted.push('"');
        assert(out@.subrange(0, m as int) =~= out@);
        quoted
    } else {
        out
    }
}

/// Whether `s` is empty, `.` or `..`.
fn is_reserved(s: &str) -> (r: bool)
    ensures
        r == is_reserved_name(s@),
{
    let n = s.unicode_len();
    if n == 0 {
        true
    } else if n == 1 {
        let r = s.get_char(0) == '.';
        assert(r ==> s@ =~= seq!['.']);
        assert(s@ != seq!['.', '.']);
        r
    } else if n == 2 {
        let r = s.get_char(0) == '.' && s.get_char(1) == '.';
        assert(r ==> s@ =~= seq!['.', '.']);
        assert(s@ != seq!['.']);
        r
    } else {
        assert(s@ != seq!['.'] && s@ != seq!['.', '.']);
        false
    }
}

/// Whether `c` occurs in `s`.
pub fn contains_char(s: &str, c: char) -> (r: bool)
    ensures
        r == s@.contains(c),
{
    let n = s.unicode_len();
    let mut i: usize = 0;
    while i < n
        invariant
            n == s@.len(),
            i <= n,
            forall|k: int| 0 <= k < i ==> s@[k] != c,
        decreases n - i,
    {
        if s.get_char(i) == c {
            return true;
        }
        i += 1;
    }
    false
}

/// Whether the characters of `p` begin `s`.
pub fn starts_with(s: &str, p: &str) -> (r: bool)
    ensures
        r == p@.is_prefix_of(s@),
{
    let n = s.unicode_len();
    let m = p.unicode_len();
    if m > n {
        return false;
    }
    let mut i: usize = 0;
    while i < m
        invariant
            n == s@.len(),
            m == p@.len(),
            m <= n,
            i <= m,
            forall|k: int| 0 <= k < i ==> s@[k] == p@[k],
        decreases m - i,
    {
        if s.get_char(i) != p.get_char(i) {
            assert(p@ != s@.subrange(0, m as int)) by {
                assert(s@.subrange(0, m as int)[i as int] == s@[i as int]);
            }
            return false;
        }
        i += 1;
    }
    assert(p@ =~= s@.subrange(0, m as int));
    true
}

} // verus!
