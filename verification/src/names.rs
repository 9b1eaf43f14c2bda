//! Names derived from user text: store ids, file-safe base names, size labels.
use vstd::prelude::*;
use crate::text::{
    chars_of, string_from_chars, str_contains, str_eq, trim, trim_str, contains, decimal, u64_to_string,
    concat, trim_start_idx, trim_end_idx, is_ws, lemma_trim_start_idx, lemma_trim_end_idx,
};

verus! {

// ---------------------------------------------------------------------------
// Store ids
// ---------------------------------------------------------------------------

/// Characters a store id may keep: ASCII letters and digits, `.`, `_`,
/// space and `-`.
pub open spec fn is_id_char(c: char) -> bool {
    ||| ('A' <= c && c <= 'Z')
    ||| ('a' <= c && c <= 'z')
    ||| ('0' <= c && c <= '9')
    ||| c == '.'
    ||| c == '_'
    ||| c == ' '
    ||| c == '-'
}

/// `s` without the characters that fail `keep`, in order.
pub open spec fn keep_id_chars(s: Seq<char>) -> Seq<char>
    decreases s.len(),
{
    if s.len() == 0 {
        s
    } else if is_id_char(s.last()) {
        keep_id_chars(s.drop_last()).push(s.last())
    } else {
        keep_id_chars(s.drop_last())
    }
}

/// `s` with every space replaced by `_`.
pub open spec fn spaces_to_underscores(s: Seq<char>) -> Seq<char> {
    Seq::new(s.len(), |i: int| if s[i] == ' ' { '_' } else { s[i] })
}

/// Calls `regex::Regex::new(r"[^A-Za-z0-9._ \-]+")` and `replace_all(name, "")`.
/// Trusted: every run of characters outside the class is deleted, so exactly
/// the characters of the class remain, in order. The pattern is a constant
/// that compiles, so the `unwrap` does not fail.
#[verifier::external_body]
fn strip_non_id_chars(name: &str) -> (r: String)
    ensures
        r@ == keep_id_chars(name@),
{
    let re = regex::Regex::new(r"[^A-Za-z0-9._ \-]+").unwrap();
    re.replace_all(name, "").to_string()
}

fn underscore_spaces(s: &str) -> (r: String)
    ensures
        r@ == spaces_to_underscores(s@),
{
    let v = chars_of(s);
    let mut out: Vec<char> = Vec::new();
    let mut i: usize = 0;
    while i < v.len()
        invariant
            v@ == s@,
            i <= v@.len(),
            out@ == spaces_to_underscores(v@.subrange(0, i as int)),
        decreases v@.len() - i,
    {
        let c = v[i];
        out.push(if c == ' ' { '_' } else { c });
        i = i + 1;
        assert(out@ =~= spaces_to_underscores(v@.subrange(0, i as int)));
    }
    assert(v@.subrange(0, v@.len() as int) =~= v@);
    string_from_chars(out.as_slice())
}

proof fn lemma_keep_id_chars(s: Seq<char>)
    ensures
        forall|i: int| 0 <= i < keep_id_chars(s).len() ==> is_id_char(#[trigger] keep_id_chars(s)[i]),
    decreases s.len(),
{
    if s.len() > 0 {
        let p = keep_id_chars(s.drop_last());
        lemma_keep_id_chars(s.drop_last());
        assert forall|i: int| 0 <= i < keep_id_chars(s).len() implies is_id_char(#[trigger] keep_id_chars(s)[i]) by {
            if i < p.len() {
                assert(keep_id_chars(s)[i] == p[i]);
            }
        }
    }
}

/// Every character of `trim(s)` is a character of `s`.
proof fn lemma_trim_chars(s: Seq<char>)
    ensures
        forall|i: int| 0 <= i < trim(s).len() ==> s.contains(#[trigger] trim(s)[i]),
{
    lemma_trim_start_idx(s, 0);
    let lo = trim_start_idx(s, 0);
    lemma_trim_end_idx(s, lo, s.len() as int);
    assert forall|i: int| 0 <= i < trim(s).len() implies s.contains(#[trigger] trim(s)[i]) by {
        assert(trim(s)[i] == s[lo + i]);
    }
}

/// The store id made from a user-chosen name.
pub open spec fn safe_id_spec(name: Seq<char>) -> Seq<char> {
    let s = spaces_to_underscores(trim(keep_id_chars(name)));
    if s.len() == 0 {
        "unnamed_mod"@
    } else {
        s
    }
}

/// A store id is never empty and holds only id characters other than
/// the space (so no path separator).
pub proof fn lemma_safe_id_chars(name: Seq<char>)
    ensures
        safe_id_spec(name).len() > 0,
        forall|i: int| 0 <= i < safe_id_spec(name).len() ==> is_id_char(#[trigger] safe_id_spec(name)[i]) && safe_id_spec(name)[i] != ' ',
{
    let k = keep_id_chars(name);
    lemma_keep_id_chars(name);
    lemma_trim_chars(k);
    reveal_strlit("unnamed_mod");
    let t = trim(k);
    assert forall|i: int| 0 <= i < t.len() implies is_id_char(#[trigger] t[i]) by {
        assert(k.contains(t[i]));
    }
}

/// A store id for `name`: characters outside `[A-Za-z0-9._ -]` are dropped,
/// the rest trimmed, spaces become `_`; an empty result is `unnamed_mod`.
/// So an id is never empty and holds no space and no path separator.
pub fn safe_id(name: &str) -> (r: String)
    ensures
        r@ == safe_id_spec(name@),
        r@.len() > 0,
        forall|i: int| 0 <= i < r@.len() ==> is_id_char(#[trigger] r@[i]) && r@[i] != ' ',
{
    proof {
        lemma_safe_id_chars(name@);
    }
    let kept = strip_non_id_chars(name);
    let t = trim_str(kept.as_str());
    let s = underscore_spaces(t.as_str());
    if s.as_str().is_empty() {
        "unnamed_mod".to_owned()
    } else {
        s
    }
}

// ---------------------------------------------------------------------------
// Base names
// ---------------------------------------------------------------------------

/// What `char::is_alphanumeric` answers for `c`.
pub uninterp spec fn alphanumeric(c: char) -> bool;

/// ASCII letters and digits.
pub open spec fn ascii_alnum(c: char) -> bool {
    ||| ('A' <= c && c <= 'Z')
    ||| ('a' <= c && c <= 'z')
    ||| ('0' <= c && c <= '9')
}

/// Calls `char::is_alphanumeric` (Unicode `Alphabetic` or `Numeric`).
/// Trusted: the answer is `alphanumeric(c)`, and for an ASCII character it is
/// exactly "ASCII letter or digit", as the documentation of the two
/// properties shows.
#[verifier::external_body]
fn char_is_alphanumeric(c: char) -> (r: bool)
    ensures
        r == alphanumeric(c),
        (c as u32) < 128 ==> (r <==> ascii_alnum(c)),
{
    c.is_alphanumeric()
}

/// What `char::is_alphanumeric` answers, as far as it is stated: among ASCII
/// characters exactly the letters and digits, beyond them `alphanumeric`.
pub open spec fn is_alnum(c: char) -> bool {
    if (c as u32) < 128 {
        ascii_alnum(c)
    } else {
        alphanumeric(c)
    }
}

/// Characters a base file name may keep.
pub open spec fn is_name_char(c: char) -> bool {
    is_alnum(c) || c == ' ' || c == '-' || c == '_'
}

pub open spec fn keep_name_chars(s: Seq<char>) -> Seq<char>
    decreases s.len(),
{
    if s.len() == 0 {
        s
    } else if is_name_char(s.last()) {
        keep_name_chars(s.drop_last()).push(s.last())
    } else {
        keep_name_chars(s.drop_last())
    }
}

/// A character of a file-safe name: not a space, and among ASCII characters
/// only letters, digits, `-` and `_` (so no path separator, dot or colon).
pub open spec fn file_safe_char(c: char) -> bool {
    c != ' ' && ((c as u32) < 128 ==> ascii_alnum(c) || c == '-' || c == '_')
}

/// A kept character: a space, or one that is file-safe.
pub open spec fn kept_name_char(c: char) -> bool {
    c == ' ' || file_safe_char(c)
}

/// The file-safe name made from a base's display name.
pub open spec fn safe_name_spec(name: Seq<char>) -> Seq<char> {
    let s = spaces_to_underscores(trim(keep_name_chars(name)));
    if s.len() == 0 {
        "unnamed_base"@
    } else {
        s
    }
}

proof fn lemma_keep_name_chars(s: Seq<char>)
    ensures
        forall|i: int| 0 <= i < keep_name_chars(s).len() ==> is_name_char(#[trigger] keep_name_chars(s)[i]),
        (forall|i: int| 0 <= i < s.len() ==> is_name_char(#[trigger] s[i])) ==> keep_name_chars(s) == s,
    decreases s.len(),
{
    if s.len() > 0 {
        let p = keep_name_chars(s.drop_last());
        lemma_keep_name_chars(s.drop_last());
        assert forall|i: int| 0 <= i < keep_name_chars(s).len() implies is_name_char(#[trigger] keep_name_chars(s)[i]) by {
            if i < p.len() {
                assert(keep_name_chars(s)[i] == p[i]);
            }
        }
        if forall|i: int| 0 <= i < s.len() ==> is_name_char(#[trigger] s[i]) {
            assert forall|i: int| 0 <= i < s.drop_last().len() implies is_name_char(#[trigger] s.drop_last()[i]) by {
                assert(s.drop_last()[i] == s[i]);
            }
            assert(is_name_char(s[s.len() - 1]));
            assert(s.drop_last().push(s.last()) =~= s);
        }
    }
}

proof fn lemma_trim_start_at(s: Seq<char>, i: int)
    requires
        0 <= i <= s.len(),
    ensures
        trim_start_idx(s, i) < s.len() ==> !is_ws(s[trim_start_idx(s, i)]),
    decreases s.len() - i,
{
    if i < s.len() && is_ws(s[i]) {
        lemma_trim_start_at(s, i + 1);
    }
}

proof fn lemma_trim_end_at(s: Seq<char>, lo: int, j: int)
    requires
        0 <= lo <= j <= s.len(),
    ensures
        trim_end_idx(s, lo, j) > lo ==> !is_ws(s[trim_end_idx(s, lo, j) - 1]),
    decreases j - lo,
{
    if j > lo && is_ws(s[j - 1]) {
        lemma_trim_end_at(s, lo, j - 1);
    }
}

/// A trimmed text neither starts nor ends with whitespace, and a text that
/// neither starts nor ends with whitespace is its own trim.
pub proof fn lemma_trim_ends(s: Seq<char>)
    ensures
        trim(s).len() > 0 ==> !is_ws(trim(s)[0]) && !is_ws(trim(s).last()),
        s.len() > 0 && !is_ws(s[0]) && !is_ws(s.last()) ==> trim(s) == s,
{
    lemma_trim_start_idx(s, 0);
    lemma_trim_start_at(s, 0);
    let lo = trim_start_idx(s, 0);
    lemma_trim_end_idx(s, lo, s.len() as int);
    lemma_trim_end_at(s, lo, s.len() as int);
    if s.len() > 0 && !is_ws(s[0]) && !is_ws(s.last()) {
        assert(lo == 0);
        assert(trim_end_idx(s, 0, s.len() as int) == s.len());
        assert(trim(s) =~= s);
    }
}

/// Making a name file-safe twice is making it file-safe once: the safe name
/// of a safe name is itself.
pub proof fn law_safe_name_idempotent(name: Seq<char>)
    ensures
        safe_name_spec(safe_name_spec(name)) == safe_name_spec(name),
{
    let k = keep_name_chars(name);
    let t = trim(k);
    let s = spaces_to_underscores(t);
    let a = safe_name_spec(name);
    lemma_keep_name_chars(name);
    lemma_trim_chars(k);
    lemma_trim_ends(k);
    if s.len() == 0 {
        reveal_strlit("unnamed_base");
        assert(a =~= seq!['u', 'n', 'n', 'a', 'm', 'e', 'd', '_', 'b', 'a', 's', 'e']);
    } else {
        assert forall|i: int| 0 <= i < t.len() implies is_name_char(#[trigger] t[i]) by {
            let m = choose|m: int| 0 <= m < k.len() && k[m] == t[i];
            assert(is_name_char(k[m]));
        }
        assert(t[0] != ' ' && t.last() != ' ');
        assert(s[0] == t[0] && s.last() == t.last());
    }
    assert forall|i: int| 0 <= i < a.len() implies is_name_char(#[trigger] a[i]) && a[i] != ' ' by {
        if s.len() > 0 {
            assert(is_name_char(t[i]));
        }
    }
    assert(a.len() > 0 && !is_ws(a[0]) && !is_ws(a.last()));
    lemma_keep_name_chars(a);
    lemma_trim_ends(a);
    assert(spaces_to_underscores(a) =~= a);
}

/// A file-safe name: keeps alphanumerics, space, `-`, `_`, trims, turns
/// spaces into `_`; an empty result is `unnamed_base`. So the name is never
/// empty and every character of it is file-safe.
pub fn safe_name(name: &str) -> (r: String)
    ensures
        r@ == safe_name_spec(name@),
        r@.len() > 0,
        forall|i: int| 0 <= i < r@.len() ==> #[trigger] file_safe_char(r@[i]),
{
    let v = chars_of(name);
    let mut kept: Vec<char> = Vec::new();
    let mut i: usize = 0;
    while i < v.len()
        invariant
            v@ == name@,
            i <= v@.len(),
            kept@ == keep_name_chars(v@.subrange(0, i as int)),
            forall|j: int| 0 <= j < kept@.len() ==> #[trigger] kept_name_char(kept@[j]),
        decreases v@.len() - i,
    {
        let c = v[i];
        let ok = char_is_alphanumeric(c) || c == ' ' || c == '-' || c == '_';
        proof {
            assert(v@.subrange(0, i + 1).drop_last() =~= v@.subrange(0, i as int));
            assert(v@.subrange(0, i + 1).last() == c);
        }
        if ok {
            kept.push(c);
        }
        i = i + 1;
    }
    assert(v@.subrange(0, v@.len() as int) =~= v@);
    let k = string_from_chars(kept.as_slice());
    let t = trim_str(k.as_str());
    let s = underscore_spaces(t.as_str());
    proof {
        lemma_trim_chars(k@);
        assert forall|j: int| 0 <= j < t@.len() implies kept_name_char(#[trigger] t@[j]) by {
            let m = choose|m: int| 0 <= m < k@.len() && k@[m] == t@[j];
            assert(kept_name_char(kept@[m]));
        }
        assert forall|j: int| 0 <= j < s@.len() implies file_safe_char(#[trigger] s@[j]) by {
            assert(kept_name_char(t@[j]));
        }
        reveal_strlit("unnamed_base");
    }
    if s.as_str().is_empty() {
        "unnamed_base".to_owned()
    } else {
        s
    }
}

/// A save container folder: a Steam `st_<id>` folder or GOG's `DefaultUser`.
pub open spec fn is_save_container_spec(name: Seq<char>) -> bool {
    contains(name, "st_"@) || name == "DefaultUser"@
}

/// Whether a folder name looks like a save container.
pub fn is_save_container(name: &str) -> (r: bool)
    ensures
        r == is_save_container_spec(name@),
{
    str_contains(name, "st_") || str_eq(name, "DefaultUser")
}

// ---------------------------------------------------------------------------
// Size labels
// ---------------------------------------------------------------------------

/// `2^e`.
pub open spec fn pow2(e: nat) -> nat
    decreases e,
{
    if e == 0 {
        1
    } else {
        2 * pow2((e - 1) as nat)
    }
}

/// Number of binary digits of `n` (0 for 0).
pub open spec fn bit_len(n: nat) -> nat
    decreases n,
{
    if n == 0 {
        0
    } else {
        1 + bit_len(n / 2)
    }
}

/// `n` rounded to 53 significant bits, ties to even: the value of `n as f64`.
pub open spec fn to_f64_value(n: nat) -> nat {
    if bit_len(n) <= 53 {
        n
    } else {
        let sh = (bit_len(n) - 53) as nat;
        let q = n / pow2(sh);
        let r = n % pow2(sh);
        let half = pow2((sh - 1) as nat);
        let up = r > half || (r == half && q % 2 == 1);
        ((if up { q + 1 } else { q }) * pow2(sh)) as nat
    }
}

/// `num / den` rounded to the nearest integer, ties to even.
pub open spec fn div_round_even(num: nat, den: nat) -> nat
    recommends
        den > 0,
{
    let q = num / den;
    let r = num % den;
    if 2 * r > den || (2 * r == den && q % 2 == 1) {
        q + 1
    } else {
        q
    }
}

/// The two decimal digits of `n < 100`.
pub open spec fn two_digits(n: nat) -> Seq<char> {
    seq![crate::text::digit_char(n / 10), crate::text::digit_char(n % 10)]
}

/// The label shown for a file size: above 1 MiB the size in MiB with two
/// decimals, rounded as `format!("{:.2}", sz as f64 / 1024.0 / 1024.0)` does
/// (to the nearest hundredth of the value `sz as f64`, ties to even);
/// otherwise whole KiB, rounded down.
pub open spec fn size_display_spec(sz: u64) -> Seq<char> {
    if sz > 1024 * 1024 {
        let cents = div_round_even(to_f64_value(sz as nat) * 100, 1048576);
        decimal(cents / 100) + "."@ + two_digits(cents % 100) + " MB"@
    } else {
        decimal((sz / 1024) as nat) + " KB"@
    }
}

proof fn lemma_pow2_pos(e: nat)
    ensures
        pow2(e) >= 1,
    decreases e,
{
    if e > 0 {
        lemma_pow2_pos((e - 1) as nat);
    }
}

proof fn lemma_bit_len_le(n: nat, k: nat)
    requires
        n < pow2(k),
    ensures
        bit_len(n) <= k,
    decreases n,
{
    if n > 0 {
        if k == 0 {
            assert(pow2(0) == 1);
        } else {
            assert(pow2(k) == 2 * pow2((k - 1) as nat));
            lemma_bit_len_le(n / 2, (k - 1) as nat);
        }
    }
}

proof fn lemma_bit_len_ge(n: nat, k: nat)
    requires
        pow2(k) <= n,
    ensures
        bit_len(n) > k,
    decreases n,
{
    lemma_pow2_pos(k);
    if k > 0 {
        assert(pow2(k) == 2 * pow2((k - 1) as nat));
        lemma_bit_len_ge(n / 2, (k - 1) as nat);
    }
}

/// The value of `sz as f64`, as an integer.
fn f64_value(sz: u64) -> (r: u128)
    ensures
        r as nat == to_f64_value(sz as nat),
        r <= 0x1_0000_0000_0000_0800u128,
{
    let ghost n = sz as nat;
    proof {
        reveal_with_fuel(pow2, 65);
        assert(pow2(64) == 0x1_0000_0000_0000_0000nat);
        lemma_bit_len_le(n, 64);
    }
    let mut bl: u32 = 0;
    let mut t: u64 = sz;
    while t > 0
        invariant
            bit_len(n) == bl + bit_len(t as nat),
            bit_len(n) <= 64,
        decreases t,
    {
        t = t / 2;
        bl = bl + 1;
    }
    if bl <= 53 {
        return sz as u128;
    }
    let sh: u32 = bl - 53;
    let mut p: u64 = 1;
    let mut k: u32 = 0;
    while k < sh
        invariant
            k <= sh,
            sh <= 11,
            p as nat == pow2(k as nat),
            p <= 2048,
        decreases sh - k,
    {
        proof {
            reveal_with_fuel(pow2, 12);
            assert(pow2((k + 1) as nat) == 2 * pow2(k as nat));
            if k < 11 {
                assert(pow2(k as nat) <= pow2(10)) by {
                    lemma_pow2_mono(k as nat, 10);
                }
            }
        }
        p = p * 2;
        k = k + 1;
    }
    let q = sz / p;
    let r = sz % p;
    let half = p / 2;
    proof {
        assert(sh >= 1);
        assert(pow2(sh as nat) == 2 * pow2((sh - 1) as nat));
        assert(half as nat == pow2((sh - 1) as nat));
        vstd::arithmetic::div_mod::lemma_fundamental_div_mod(sz as int, p as int);
    }
    let up = r > half || (r == half && q % 2 == 1);
    let qq: u128 = if up { q as u128 + 1 } else { q as u128 };
    proof {
        assert(qq * p <= sz as int + p) by (nonlinear_arith)
            requires
                qq <= q + 1,
                p * q + r == sz,
                r >= 0,
                p > 0,
        ;
    }
    qq * (p as u128)
}

proof fn lemma_pow2_mono(a: nat, b: nat)
    requires
        a <= b,
    ensures
        pow2(a) <= pow2(b),
    decreases b,
{
    if a < b {
        lemma_pow2_mono(a, (b - 1) as nat);
        assert(pow2(b) == 2 * pow2((b - 1) as nat));
        lemma_pow2_pos((b - 1) as nat);
    }
}

/// The label a size is shown with (see `size_display_spec`).
pub fn size_display(sz: u64) -> (r: String)
    ensures
        r@ == size_display_spec(sz),
{
    if sz > 1024 * 1024 {
        let v = f64_value(sz);
        let num = v * 100;
        let q = num / 1048576;
        let rm = num % 1048576;
        let cents128 = if 2 * rm > 1048576 || (2 * rm == 1048576 && q % 2 == 1) {
            q + 1
        } else {
            q
        };
        proof {
            assert(q <= 0x1_0000_0000_0000_0800u128 * 100 / 1048576) by (nonlinear_arith)
                requires
                    q == v * 100 / 1048576,
                    v <= 0x1_0000_0000_0000_0800u128,
            ;
        }
        let cents = cents128 as u64;
        let whole = u64_to_string(cents / 100);
        let frac = cents % 100;
        let mut tail: Vec<char> = Vec::new();
        tail.push('.');
        tail.push(((frac / 10) as u8 + 48u8) as char);
        tail.push(((frac % 10) as u8 + 48u8) as char);
        tail.push(' ');
        tail.push('M');
        tail.push('B');
        let tail_s = string_from_chars(tail.as_slice());
        proof {
            reveal_strlit(".");
            reveal_strlit(" MB");
            assert(tail_s@ =~= "."@ + two_digits(cents as nat % 100) + " MB"@);
        }
        let r = concat(whole.as_str(), tail_s.as_str());
        proof {
            assert(r@ =~= decimal((cents / 100) as nat) + "."@ + two_digits(cents as nat % 100) + " MB"@);
        }
        r
    } else {
        let whole = u64_to_string(sz / 1024);
        concat(whole.as_str(), " KB")
    }
}

} // verus!
