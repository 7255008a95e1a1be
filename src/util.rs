//! String helpers: number validation, file names and extensions.

use vstd::prelude::*;
use vstd::string::*;

verus! {

pub open spec fn is_digit(c: char) -> bool {
    '0' <= c <= '9'
}

pub open spec fn all_digits(s: Seq<char>) -> bool {
    s.len() > 0 && forall|i: int| 0 <= i < s.len() ==> is_digit(#[trigger] s[i])
}

/// The number that decimal digits spell.
pub open spec fn digits_value(s: Seq<char>) -> int
    decreases s.len(),
{
    if s.len() == 0 {
        0
    } else {
        digits_value(s.drop_last()) * 10 + (s.last() as int - '0' as int)
    }
}

/// What Rust's integer parsing accepts: an optional sign (a minus sign only
/// for signed types) and at least one decimal digit, with a value no
/// greater than `max_pos`, or than `max_neg` after a minus sign.
pub open spec fn parses_as_integer(s: Seq<char>, max_pos: int, max_neg: int, signed: bool) -> bool {
    if s.len() > 0 && s[0] == '-' {
        signed && all_digits(s.drop_first()) && digits_value(s.drop_first()) <= max_neg
    } else if s.len() > 0 && s[0] == '+' {
        all_digits(s.drop_first()) && digits_value(s.drop_first()) <= max_pos
    } else {
        all_digits(s) && digits_value(s) <= max_pos
    }
}

fn digits_within(s: &str, start: usize, limit: u128) -> (r: bool)
    requires
        start <= s@.len(),
        limit <= 0x1_0000_0000_0000_0000,
    ensures
        r == (all_digits(s@.skip(start as int)) && digits_value(s@.skip(start as int)) <= limit),
{
    let n = s.unicode_len();
    if start >= n {
        return false;
    }
    let ghost t = s@.skip(start as int);
    let mut val: u128 = 0;
    let mut big = false;
    let mut i = start;
    while i < n
        invariant
            n == s@.len(),
            start < n,
            start <= i <= n,
            t == s@.skip(start as int),
            limit <= 0x1_0000_0000_0000_0000,
            forall|k: int| 0 <= k < i - start ==> is_digit(#[trigger] t[k]),
            !big ==> val == digits_value(t.take(i - start)) && val <= limit,
            big ==> digits_value(t.take(i - start)) > limit,
        decreases n - i,
    {
        let c = s.get_char(i);
        if !('0' <= c && c <= '9') {
            proof {
                assert(t[i - start] == c);
            }
            return false;
        }
        let d = (c as u32 - '0' as u32) as u128;
        proof {
            assert(t.take(i - start + 1).drop_last() =~= t.take(i - start));
            assert(t.take(i - start + 1).last() == c);
        }
        if !big {
            let next = val * 10 + d;
            if next > limit {
                big = true;
            } else {
                val = next;
            }
        }
        i += 1;
    }
    proof {
        assert(t.take(n - start) =~= t);
    }
    !big
}

fn integer_text_ok(s: &str, max_pos: u128, max_neg: u128, signed: bool) -> (r: bool)
    requires
        max_pos <= 0x1_0000_0000_0000_0000,
        max_neg <= 0x1_0000_0000_0000_0000,
    ensures
        r == parses_as_integer(s@, max_pos as int, max_neg as int, signed),
{
    let n = s.unicode_len();
    if n > 0 && s.get_char(0) == '-' {
        proof {
            assert(s@.skip(1) =~= s@.drop_first());
        }
        signed && digits_within(s, 1, max_neg)
    } else if n > 0 && s.get_char(0) == '+' {
        proof {
            assert(s@.skip(1) =~= s@.drop_first());
        }
        digits_within(s, 1, max_pos)
    } else {
        proof {
            assert(s@.skip(0) =~= s@);
        }
        digits_within(s, 0, max_pos)
    }
}

pub fn string_is_valid_i32(s: &str) -> (r: bool)
    ensures
        r == parses_as_integer(s@, i32::MAX as int, 0x8000_0000, true),
{
    integer_text_ok(s, 0x7FFF_FFFF, 0x8000_0000, true)
}

pub fn string_is_valid_usize(s: &str) -> (r: bool)
    ensures
        r == parses_as_integer(s@, usize::MAX as int, 0, false),
{
    integer_text_ok(s, usize::MAX as u128, 0, false)
}

pub fn string_is_valid_u8(s: &str) -> (r: bool)
    ensures
        r == parses_as_integer(s@, 255, 0, false),
{
    integer_text_ok(s, 255, 0, false)
}

pub fn stringvec(a: &str, b: &str) -> (r: Vec<String>)
    ensures
        r@.len() == 2,
        r@[0]@ == a@,
        r@[1]@ == b@,
{
    vec![a.to_owned(), b.to_owned()]
}

pub fn stringvec_b(a: &str, b: String) -> (r: Vec<String>)
    ensures
        r@.len() == 2,
        r@[0]@ == a@,
        r@[1] == b,
{
    vec![a.to_owned(), b]
}

/// Every match of `pat`, leftmost first and not overlapping, replaced by `rep`.
pub open spec fn replace_all(s: Seq<char>, pat: Seq<char>, rep: Seq<char>) -> Seq<char>
    decreases s.len(),
{
    if pat.len() == 0 || s.len() < pat.len() {
        s
    } else if s.take(pat.len() as int) == pat {
        rep + replace_all(s.skip(pat.len() as int), pat, rep)
    } else {
        seq![s[0]] + replace_all(s.drop_first(), pat, rep)
    }
}

fn matches_at(s: &str, i: usize, pat: &str) -> (r: bool)
    requires
        i <= s@.len(),
    ensures
        r == (i + pat@.len() <= s@.len() && s@.subrange(i as int, i + pat@.len()) == pat@),
{
    let n = s.unicode_len();
    let m = pat.unicode_len();
    if m > n - i {
        return false;
    }
    let mut j: usize = 0;
    while j < m
        invariant
            n == s@.len(),
            m == pat@.len(),
            i + m <= n,
            j <= m,
            forall|k: int| 0 <= k < j ==> s@[i + k] == pat@[k],
        decreases m - j,
    {
        if s.get_char(i + j) != pat.get_char(j) {
            proof {
                assert(s@.subrange(i as int, i + m)[j as int] != pat@[j as int]);
            }
            return false;
        }
        j += 1;
    }
    assert(s@.subrange(i as int, i + m) =~= pat@);
    true
}

/// Replaces every match of `pat` by `rep`, as `str::replace` does.
fn replace_text(s: &str, pat: &str, rep: &str) -> (r: String)
    requires
        pat@.len() > 0,
    ensures
        r@ == replace_all(s@, pat@, rep@),
{
    let n = s.unicode_len();
    let m = pat.unicode_len();
    let mut out = String::from_str("");
    let mut i: usize = 0;
    proof {
        reveal_strlit("");
        assert(s@.skip(0) =~= s@);
    }
    while i < n
        invariant
            n == s@.len(),
            m == pat@.len(),
            m > 0,
            i <= n,
            out@ + replace_all(s@.skip(i as int), pat@, rep@) == replace_all(s@, pat@, rep@),
        decreases n - i,
    {
        let ghost t = s@.skip(i as int);
        if matches_at(s, i, pat) {
            proof {
                assert(t.take(m as int) =~= s@.subrange(i as int, i + m));
                assert(t.skip(m as int) =~= s@.skip(i + m));
                assert(out@ + rep@ + replace_all(t.skip(m as int), pat@, rep@) =~= out@ + (rep@
                    + replace_all(t.skip(m as int), pat@, rep@)));
            }
            out.append(rep);
            i = i + m;
        } else {
            let one = s.substring_char(i, i + 1);
            proof {
                assert(t.len() >= m ==> t.take(m as int) =~= s@.subrange(i as int, i + m));
                assert(one@ =~= seq![t[0]]);
                assert(t.drop_first() =~= s@.skip(i + 1));
                assert(out@ + one@ + replace_all(t.drop_first(), pat@, rep@) =~= out@ + (one@
                    + replace_all(t.drop_first(), pat@, rep@)));
            }
            out.append(one);
            i = i + 1;
        }
    }
    proof {
        assert(s@.skip(n as int) =~= Seq::<char>::empty());
        assert(out@ + Seq::<char>::empty() =~= out@);
    }
    out
}

/// The image extensions that file names are rewritten at.
pub open spec fn without_image_extensions(s: Seq<char>, rep: Seq<char>) -> Seq<char> {
    replace_all(
        replace_all(
            replace_all(
                replace_all(
                    replace_all(replace_all(s, ".png"@, rep), ".PNG"@, rep),
                    ".jpg"@,
                    rep,
                ),
                ".JPG"@,
                rep,
            ),
            ".tif"@,
            rep,
        ),
        ".TIF"@,
        rep,
    )
}

/// Replaces each `.png`, `.PNG`, `.jpg`, `.JPG`, `.tif` and `.TIF` in the
/// name, in that order, by `append`.
pub fn replace_image_extension(input_file: &str, append: &str) -> (r: String)
    ensures
        r@ == without_image_extensions(input_file@, append@),
{
    proof {
        reveal_strlit(".png");
        reveal_strlit(".PNG");
        reveal_strlit(".jpg");
        reveal_strlit(".JPG");
        reveal_strlit(".tif");
        reveal_strlit(".TIF");
    }
    let a = replace_text(input_file, ".png", append);
    let b = replace_text(a.as_str(), ".PNG", append);
    let c = replace_text(b.as_str(), ".jpg", append);
    let d = replace_text(c.as_str(), ".JPG", append);
    let e = replace_text(d.as_str(), ".tif", append);
    replace_text(e.as_str(), ".TIF", append)
}

/// The name with its image extension replaced by `-<append>.png`.
pub fn append_file_name(input_file: &str, append: &str) -> (r: String)
    ensures
        r@ == without_image_extensions(input_file@, "-"@ + append@ + ".png"@),
{
    let mut with_ext = String::from_str("-");
    with_ext.append(append);
    with_ext.append(".png");
    replace_image_extension(input_file, with_ext.as_str())
}

/// The part of a path after its last `/`.
pub open spec fn last_segment(p: Seq<char>) -> Seq<char>
    decreases p.len(),
{
    if p.len() == 0 {
        p
    } else if p.last() == '/' {
        Seq::empty()
    } else {
        last_segment(p.drop_last()).push(p.last())
    }
}

/// A path that ends in a plain file name: its last segment is neither
/// empty, `.` nor `..`, and it holds no `\` or `:`, which some platforms
/// read as separators.
pub open spec fn ends_in_file_name(p: Seq<char>) -> bool {
    let b = last_segment(p);
    &&& b.len() > 0
    &&& b != seq!['.']
    &&& b != seq!['.', '.']
    &&& forall|i: int| 0 <= i < p.len() ==> #[trigger] p[i] != '\\' && p[i] != ':'
}

/// Relies on `sciimg::path::basename`, that is `Path::file_name`: for a path
/// that ends in a plain file name, that name.
#[verifier::external_body]
fn basename(path: &str) -> (r: String)
    requires
        ends_in_file_name(path@),
    ensures
        r@ == last_segment(path@),
{
    sciimg::path::basename(path)
}

/// The character at `pos` of the path's file name.
pub fn filename_char_at_pos(filename: &str, pos: usize) -> (r: char)
    requires
        ends_in_file_name(filename@),
        pos < last_segment(filename@).len(),
    ensures
        r == last_segment(filename@)[pos as int],
{
    let bn = basename(filename);
    bn.as_str().get_char(pos)
}

} // verus!
