//! Shared helpers: the content digest behind entry identifiers,
//! character/string conversions, and decimal digit counting.

use crypto::digest::Digest;
use vstd::prelude::*;

verus! {

/// Number of digits in the decimal representation of `n`; one digit
/// for zero.
pub open spec fn digit_count(n: nat) -> nat
    decreases n,
{
    if n < 10 {
        1
    } else {
        1 + digit_count(n / 10)
    }
}

proof fn lemma_digit_count_bound(n: nat)
    ensures
        1 <= digit_count(n),
        n >= 1 ==> digit_count(n) <= n,
    decreases n,
{
    if n >= 10 {
        lemma_digit_count_bound(n / 10);
    }
}

/// Width used to zero-pad `%n` expansions: the decimal digit count of
/// the total number of operations in the pass.
pub fn width(n: usize) -> (r: usize)
    ensures
        r == digit_count(n as nat),
{
    let mut rest: usize = n;
    let mut digits: usize = 1;
    while rest >= 10
        invariant
            digits >= 1,
            digits + digit_count(rest as nat) == 1 + digit_count(n as nat),
            rest <= n,
        decreases rest,
    {
        proof {
            lemma_digit_count_bound(rest as nat);
            lemma_digit_count_bound((rest / 10) as nat);
            lemma_digit_count_bound(n as nat);
        }
        rest = rest / 10;
        digits = digits + 1;
    }
    digits
}

/// Lowercase hexadecimal digit, as used in entry identifiers.
pub open spec fn is_hex_char(c: char) -> bool {
    ('0' <= c && c <= '9') || ('a' <= c && c <= 'f')
}

/// The 40-character lowercase hexadecimal SHA-1 digest of a string.
/// The digest itself is computed by an outside crate; this name stands
/// for its result, which depends on the input characters alone.
pub uninterp spec fn sha1_hex_of(s: Seq<char>) -> Seq<char>;

/// Relies on crypto::sha1::Sha1 (methods `new`, `input_str` and
/// `result_str` of the `Digest` trait): `result_str` hex-encodes the
/// 20-byte SHA-1 digest of the input, two lowercase digits per byte.
#[verifier::external_body]
pub fn sha1(input: &str) -> (r: String)
    ensures
        r@ == sha1_hex_of(input@),
        r@.len() == 40,
        forall|i: int| 0 <= i < r@.len() ==> is_hex_char(#[trigger] r@[i]),
{
    let mut hasher = crypto::sha1::Sha1::new();
    hasher.input_str(input);
    hasher.result_str()
}

/// The digest is deterministic: two inputs with equal characters have
/// equal identifiers, so the identifier of a path never depends on
/// when or where it is computed.
pub proof fn lemma_digest_deterministic(a: Seq<char>, b: Seq<char>)
    requires
        a == b,
    ensures
        sha1_hex_of(a) == sha1_hex_of(b),
{
}

/// Relies on String::push: appends one character.
#[verifier::external_body]
pub fn push_char(s: &mut String, c: char)
    ensures
        final(s)@ == old(s)@.push(c),
{
    s.push(c)
}

/// The characters of `s`, as a vector.
pub fn str_to_chars(s: &str) -> (r: Vec<char>)
    ensures
        r@ == s@,
{
    let n = s.unicode_len();
    let mut r: Vec<char> = Vec::new();
    let mut i: usize = 0;
    while i < n
        invariant
            n == s@.len(),
            i <= n,
            r@ == s@.take(i as int),
        decreases n - i,
    {
        r.push(s.get_char(i));
        proof {
            assert(s@.take(i + 1) =~= s@.take(i as int).push(s@[i as int]));
        }
        i = i + 1;
    }
    proof {
        assert(s@.take(n as int) =~= s@);
    }
    r
}

/// `dir` joined with `name`, as paths: an absolute `name` replaces
/// `dir`; otherwise the two are joined with a single `/` between
/// them.  An empty `dir` yields `name` alone.
pub open spec fn join_spec(dir: Seq<char>, name: Seq<char>) -> Seq<char> {
    if name.len() > 0 && name[0] == '/' {
        name
    } else if dir.len() == 0 {
        name
    } else if dir[dir.len() - 1] == '/' {
        dir + name
    } else {
        dir + seq!['/'] + name
    }
}

/// Joins `dir` and `name` as paths.
pub fn join_path(dir: &str, name: &str) -> (r: String)
    ensures
        r@ == join_spec(dir@, name@),
{
    let name_abs = name.unicode_len() > 0 && name.get_char(0) == '/';
    let dlen = dir.unicode_len();
    if name_abs || dlen == 0 {
        let mut r = String::new();
        r.append(name);
        proof {
            assert(r@ =~= join_spec(dir@, name@));
        }
        r
    } else if dir.get_char(dlen - 1) == '/' {
        let mut r = String::new();
        r.append(dir);
        r.append(name);
        proof {
            assert(r@ =~= join_spec(dir@, name@));
        }
        r
    } else {
        let mut r = String::new();
        r.append(dir);
        push_char(&mut r, '/');
        r.append(name);
        proof {
            assert(r@ =~= join_spec(dir@, name@));
        }
        r
    }
}

/// `p` without its trailing `/` characters; a lone `/` stays.
pub open spec fn strip_slashes(p: Seq<char>) -> Seq<char>
    decreases p.len(),
{
    if p.len() >= 2 && p[p.len() - 1] == '/' {
        strip_slashes(p.drop_last())
    } else {
        p
    }
}

/// Whether two strings name the same path: trailing separators do not
/// distinguish them, so a directory whose rendered name carries a `/`
/// still names its own path.
pub open spec fn same_path_spec(a: Seq<char>, b: Seq<char>) -> bool {
    strip_slashes(a) == strip_slashes(b)
}

proof fn lemma_strip_slashes(p: Seq<char>, i: int)
    requires
        1 <= i <= p.len(),
        forall|j: int| i <= j < p.len() ==> p[j] == '/',
        p[i - 1] != '/' || i == 1,
    ensures
        strip_slashes(p) == p.take(i),
    decreases p.len(),
{
    if p.len() >= 2 && p[p.len() - 1] == '/' {
        if i == p.len() {
        } else {
            lemma_strip_slashes(p.drop_last(), i);
            assert(p.drop_last().take(i) =~= p.take(i));
        }
    } else {
        assert(p.take(p.len() as int) =~= p);
    }
}

/// Whether `a` and `b` name the same path.
pub fn same_path(a: &str, b: &str) -> (r: bool)
    ensures
        r == same_path_spec(a@, b@),
{
    let sa = strip_trailing(a);
    let sb = strip_trailing(b);
    let mut i: usize = 0;
    if sa.len() != sb.len() {
        proof {
            assert(sa@ != sb@);
        }
        return false;
    }
    let n = sa.len();
    while i < n
        invariant
            n == sa@.len() == sb@.len(),
            i <= n,
            sa@ == strip_slashes(a@),
            sb@ == strip_slashes(b@),
            forall|j: int| 0 <= j < i ==> sa@[j] == sb@[j],
        decreases n - i,
    {
        if sa[i] != sb[i] {
            return false;
        }
        i = i + 1;
    }
    proof {
        assert(sa@ =~= sb@);
    }
    true
}

/// The characters of `p` without its trailing `/` run.
fn strip_trailing(p: &str) -> (r: Vec<char>)
    ensures
        r@ == strip_slashes(p@),
{
    let chars = str_to_chars(p);
    let n = chars.len();
    let mut end: usize = n;
    while end > 1 && chars[end - 1] == '/'
        invariant
            chars@ == p@,
            n == p@.len(),
            1 <= end <= n || (end == n && n == 0),
            forall|j: int| end <= j < n ==> p@[j] == '/',
        decreases end,
    {
        end = end - 1;
    }
    let mut out: Vec<char> = Vec::new();
    let mut i: usize = 0;
    while i < end
        invariant
            chars@ == p@,
            end <= n == p@.len(),
            i <= end,
            out@ == p@.take(i as int),
        decreases end - i,
    {
        out.push(chars[i]);
        proof {
            assert(p@.take(i + 1) =~= p@.take(i as int).push(p@[i as int]));
        }
        i = i + 1;
    }
    proof {
        if n == 0 {
            assert(strip_slashes(p@) =~= p@);
            assert(out@ =~= p@);
        } else {
            lemma_strip_slashes(p@, end as int);
        }
    }
    out
}

/// A Unicode White_Space character: what trimming a pattern removes
/// from its ends.
pub open spec fn is_trim_space(c: char) -> bool {
    ||| c == '\u{0009}'
    ||| c == '\u{000A}'
    ||| c == '\u{000B}'
    ||| c == '\u{000C}'
    ||| c == '\u{000D}'
    ||| c == '\u{0020}'
    ||| c == '\u{0085}'
    ||| c == '\u{00A0}'
    ||| c == '\u{1680}'
    ||| ('\u{2000}' <= c && c <= '\u{200A}')
    ||| c == '\u{2028}'
    ||| c == '\u{2029}'
    ||| c == '\u{202F}'
    ||| c == '\u{205F}'
    ||| c == '\u{3000}'
}

/// End of the run of White_Space characters starting at `i`.
pub open spec fn trim_start_end(s: Seq<char>, i: int) -> int
    decreases s.len() - i,
        when 0 <= i <= s.len()
{
    if i < s.len() && is_trim_space(s[i]) {
        trim_start_end(s, i + 1)
    } else {
        i
    }
}

/// Start of the run of White_Space characters ending at `i`.
pub open spec fn trim_end_start(s: Seq<char>, i: int) -> int
    decreases i,
        when 0 <= i <= s.len()
{
    if i > 0 && is_trim_space(s[i - 1]) {
        trim_end_start(s, i - 1)
    } else {
        i
    }
}

/// `s` with leading and trailing White_Space removed.
pub open spec fn trim_spec(s: Seq<char>) -> Seq<char> {
    let a = trim_start_end(s, 0);
    let b = trim_end_start(s, s.len() as int);
    if a >= b {
        Seq::empty()
    } else {
        s.subrange(a, b)
    }
}

/// Whether trimming removes `c`, decided executably.
pub fn is_trim_space_exec(c: char) -> (r: bool)
    ensures
        r == is_trim_space(c),
{
    c == '\u{0009}' || c == '\u{000A}' || c == '\u{000B}' || c == '\u{000C}' || c == '\u{000D}'
        || c == '\u{0020}' || c == '\u{0085}' || c == '\u{00A0}' || c == '\u{1680}' || ('\u{2000}'
        <= c && c <= '\u{200A}') || c == '\u{2028}' || c == '\u{2029}' || c == '\u{202F}' || c
        == '\u{205F}' || c == '\u{3000}'
}

/// `s` with leading and trailing White_Space removed.
pub fn trim(s: &str) -> (r: String)
    ensures
        r@ == trim_spec(s@),
{
    let chars = str_to_chars(s);
    let n = chars.len();
    let mut a: usize = 0;
    while a < n && is_trim_space_exec(chars[a])
        invariant
            chars@ == s@,
            n == s@.len(),
            0 <= a <= n,
            trim_start_end(s@, 0) == trim_start_end(s@, a as int),
        decreases n - a,
    {
        a = a + 1;
    }
    let mut b: usize = n;
    while b > 0 && is_trim_space_exec(chars[b - 1])
        invariant
            chars@ == s@,
            n == s@.len(),
            0 <= b <= n,
            trim_end_start(s@, n as int) == trim_end_start(s@, b as int),
        decreases b,
    {
        b = b - 1;
    }
    proof {
        assert(trim_start_end(s@, a as int) == a);
        assert(trim_end_start(s@, b as int) == b);
    }
    let mut out: Vec<char> = Vec::new();
    if a < b {
        let mut i: usize = a;
        while i < b
            invariant
                chars@ == s@,
                a <= i <= b <= s@.len(),
                out@ == s@.subrange(a as int, i as int),
            decreases b - i,
        {
            out.push(chars[i]);
            proof {
                assert(s@.subrange(a as int, i + 1) =~= s@.subrange(a as int, i as int).push(
                    s@[i as int]));
            }
            i = i + 1;
        }
    }
    proof {
        if a < b {
            assert(out@ =~= trim_spec(s@));
        } else {
            assert(out@ =~= trim_spec(s@));
        }
    }
    chars_to_string(&out)
}

/// A string holding exactly the characters of `v`.
pub fn chars_to_string(v: &Vec<char>) -> (r: String)
    ensures
        r@ == v@,
{
    let mut r = String::new();
    let mut i: usize = 0;
    while i < v.len()
        invariant
            i <= v@.len(),
            r@ == v@.take(i as int),
        decreases v@.len() - i,
    {
        push_char(&mut r, v[i]);
        proof {
            assert(v@.take(i + 1) =~= v@.take(i as int).push(v@[i as int]));
        }
        i = i + 1;
    }
    proof {
        assert(v@.take(v@.len() as int) =~= v@);
    }
    r
}

} // verus!
