//! Character-level string helpers shared by the library.
use vstd::prelude::*;
use vstd::std_specs::iter::IteratorSpec;

verus! {

/// The characters of `s`, in order.
pub fn chars_of(s: &str) -> (v: Vec<char>)
    ensures
        v@ == s@,
{
    broadcast use vstd::string::axiom_spec_iter, vstd::string::next_postcondition;
    let mut it = s.chars();
    let mut v: Vec<char> = Vec::new();
    assert(it.remaining() == s@);
    loop
        invariant
            v@ + it.remaining() == s@,
            it.obeys_prophetic_iter_laws(),
            it.decrease() is Some,
        ensures
            v@ == s@,
        decreases it.decrease()->0,
    {
        let ghost before = it.remaining();
        match it.next() {
            Some(c) => {
                assert(before.len() > 0);
                v.push(c);
                assert(v@ + it.remaining() =~= s@) by {
                    assert(before =~= seq![c] + it.remaining());
                }
            },
            None => {
                assert(v@ =~= s@);
                break;
            },
        }
    }
    v
}

/// Collects characters into a `String` (`FromIterator<&char>`). Trusted: the
/// string holds exactly these characters.
#[verifier::external_body]
pub(crate) fn string_from_chars(v: &[char]) -> (s: String)
    ensures
        s@ == v@,
{
    v.iter().collect()
}

/// Lexicographic "less than" of `a[i..]` and `b[i..]`, comparing characters
/// by code point; a proper prefix is smaller. On valid strings this is the
/// order of `str`'s `Ord` (UTF-8 preserves code point order bytewise).
pub open spec fn seq_lt_from(a: Seq<char>, b: Seq<char>, i: int) -> bool
    decreases a.len() - i,
{
    if i < 0 || i >= a.len() {
        0 <= i < b.len()
    } else if i >= b.len() {
        false
    } else if a[i] != b[i] {
        (a[i] as u32) < (b[i] as u32)
    } else {
        seq_lt_from(a, b, i + 1)
    }
}

/// `a` sorts strictly before `b`.
pub open spec fn seq_lt(a: Seq<char>, b: Seq<char>) -> bool {
    seq_lt_from(a, b, 0)
}

proof fn lemma_seq_lt_irrefl_from(a: Seq<char>, i: int)
    requires
        0 <= i,
    ensures
        !seq_lt_from(a, a, i),
    decreases a.len() - i,
{
    if i < a.len() {
        lemma_seq_lt_irrefl_from(a, i + 1);
    }
}

proof fn lemma_seq_lt_trans_from(a: Seq<char>, b: Seq<char>, c: Seq<char>, i: int)
    requires
        0 <= i,
        seq_lt_from(a, b, i),
        seq_lt_from(b, c, i),
    ensures
        seq_lt_from(a, c, i),
    decreases a.len() - i,
{
    if i < a.len() && i < b.len() && i < c.len() && a[i] == b[i] && b[i] == c[i] {
        lemma_seq_lt_trans_from(a, b, c, i + 1);
    }
}

proof fn lemma_seq_lt_total_from(a: Seq<char>, b: Seq<char>, i: int)
    requires
        0 <= i <= a.len(),
        i <= b.len(),
        forall|j: int| 0 <= j < i ==> a[j] == b[j],
        a != b,
    ensures
        seq_lt_from(a, b, i) || seq_lt_from(b, a, i),
    decreases a.len() - i,
{
    if i == a.len() && i == b.len() {
        assert(a =~= b);
    } else if i < a.len() && i < b.len() && a[i] == b[i] {
        lemma_seq_lt_total_from(a, b, i + 1);
    } else if i < a.len() && i < b.len() {
        vstd::utf8::char_u32_cast(a[i], a[i] as u32);
        vstd::utf8::char_u32_cast(b[i], b[i] as u32);
    }
}

/// `seq_lt` is a strict total order: irreflexive, transitive, and any two
/// different sequences are ordered one way.
pub proof fn lemma_seq_lt_order(a: Seq<char>, b: Seq<char>, c: Seq<char>)
    ensures
        !seq_lt(a, a),
        seq_lt(a, b) && seq_lt(b, c) ==> seq_lt(a, c),
        a != b ==> seq_lt(a, b) || seq_lt(b, a),
        seq_lt(a, b) ==> !seq_lt(b, a),
{
    lemma_seq_lt_irrefl_from(a, 0);
    if seq_lt(a, b) && seq_lt(b, c) {
        lemma_seq_lt_trans_from(a, b, c, 0);
    }
    if a != b {
        lemma_seq_lt_total_from(a, b, 0);
    }
    if seq_lt(a, b) && seq_lt(b, a) {
        lemma_seq_lt_trans_from(a, b, a, 0);
        lemma_seq_lt_irrefl_from(a, 0);
    }
}

proof fn lemma_seq_lt_extend_from(p: Seq<char>, q: Seq<char>, a: Seq<char>, b: Seq<char>, i: int)
    requires
        0 <= i,
        p.len() == q.len(),
        seq_lt_from(p, q, i),
    ensures
        seq_lt_from(p + a, q + b, i),
    decreases p.len() - i,
{
    if i < p.len() {
        assert((p + a)[i] == p[i] && (q + b)[i] == q[i]);
        if p[i] == q[i] {
            lemma_seq_lt_extend_from(p, q, a, b, i + 1);
        }
    }
}

/// When `p` sorts before `q` and both have one length, whatever follows
/// them does not change the order.
pub proof fn lemma_seq_lt_extend(p: Seq<char>, q: Seq<char>, a: Seq<char>, b: Seq<char>)
    requires
        p.len() == q.len(),
        seq_lt(p, q),
    ensures
        seq_lt(p + a, q + b),
{
    lemma_seq_lt_extend_from(p, q, a, b, 0);
}

/// Whether `a` sorts strictly before `b`.
pub fn str_lt(a: &str, b: &str) -> (r: bool)
    ensures
        r == seq_lt(a@, b@),
{
    let x = chars_of(a);
    let y = chars_of(b);
    let mut i: usize = 0;
    while i < x.len() && i < y.len() && x[i] == y[i]
        invariant
            x@ == a@,
            y@ == b@,
            i <= x@.len(),
            i <= y@.len(),
            seq_lt_from(a@, b@, 0) == seq_lt_from(a@, b@, i as int),
        decreases x@.len() - i,
    {
        i = i + 1;
    }
    if i >= x.len() {
        i < y.len()
    } else if i >= y.len() {
        false
    } else {
        (x[i] as u32) < (y[i] as u32)
    }
}

/// `str::eq`: the two strings hold the same characters.
pub fn str_eq(a: &str, b: &str) -> (r: bool)
    ensures
        r == (a@ == b@),
{
    let x = chars_of(a);
    let y = chars_of(b);
    if x.len() != y.len() {
        return false;
    }
    let mut i: usize = 0;
    while i < x.len()
        invariant
            x@ == a@,
            y@ == b@,
            x@.len() == y@.len(),
            i <= x@.len(),
            forall|j: int| 0 <= j < i ==> x@[j] == y@[j],
        decreases x@.len() - i,
    {
        if x[i] != y[i] {
            return false;
        }
        i = i + 1;
    }
    assert(x@ =~= y@);
    true
}

/// The decimal digit character of `d < 10`.
pub open spec fn digit_char(d: nat) -> char {
    ((d + 48) as u8) as char
}

/// The decimal representation of `n`, without sign or leading zeros.
pub open spec fn decimal(n: nat) -> Seq<char>
    decreases n,
{
    if n < 10 {
        seq![digit_char(n)]
    } else {
        decimal(n / 10).push(digit_char(n % 10))
    }
}

fn decimal_chars(n: u64) -> (v: Vec<char>)
    ensures
        v@ == decimal(n as nat),
    decreases n,
{
    let d = ((n % 10) as u8 + 48u8) as char;
    if n < 10 {
        let mut v = Vec::new();
        v.push(d);
        assert(v@ =~= decimal(n as nat));
        v
    } else {
        let mut v = decimal_chars(n / 10);
        v.push(d);
        v
    }
}

/// `n.to_string()` for an unsigned integer.
pub fn u64_to_string(n: u64) -> (s: String)
    ensures
        s@ == decimal(n as nat),
{
    let v = decimal_chars(n);
    string_from_chars(v.as_slice())
}

/// Concatenation of two strings.
pub fn concat(a: &str, b: &str) -> (s: String)
    ensures
        s@ == a@ + b@,
{
    let mut v = chars_of(a);
    let w = chars_of(b);
    let mut i: usize = 0;
    let ghost a0 = v@;
    while i < w.len()
        invariant
            a0 == a@,
            w@ == b@,
            i <= w@.len(),
            v@ == a0 + w@.subrange(0, i as int),
        decreases w@.len() - i,
    {
        v.push(w[i]);
        i = i + 1;
        assert(v@ =~= a0 + w@.subrange(0, i as int));
    }
    assert(w@.subrange(0, w@.len() as int) =~= w@);
    string_from_chars(v.as_slice())
}

/// Characters of the Unicode `White_Space` property (what `char::is_whitespace`
/// and `str::trim` use).
pub open spec fn is_ws(c: char) -> bool {
    let u = c as u32;
    ||| 0x09 <= u <= 0x0D
    ||| u == 0x20
    ||| u == 0x85
    ||| u == 0xA0
    ||| u == 0x1680
    ||| 0x2000 <= u <= 0x200A
    ||| u == 0x2028
    ||| u == 0x2029
    ||| u == 0x202F
    ||| u == 0x205F
    ||| u == 0x3000
}

/// `char::is_whitespace`.
pub fn char_is_ws(c: char) -> (r: bool)
    ensures
        r == is_ws(c),
{
    let u = c as u32;
    (0x09 <= u && u <= 0x0D) || u == 0x20 || u == 0x85 || u == 0xA0 || u == 0x1680 || (0x2000
        <= u && u <= 0x200A) || u == 0x2028 || u == 0x2029 || u == 0x202F || u == 0x205F || u
        == 0x3000
}

/// Index of the first non-whitespace character (or the length).
pub open spec fn trim_start_idx(s: Seq<char>, i: int) -> int
    decreases s.len() - i,
{
    if i < 0 || i >= s.len() {
        s.len() as int
    } else if is_ws(s[i]) {
        trim_start_idx(s, i + 1)
    } else {
        i
    }
}

/// One past the last non-whitespace character of `s[..j]`, never below `lo`.
pub open spec fn trim_end_idx(s: Seq<char>, lo: int, j: int) -> int
    decreases j - lo,
{
    if j <= lo {
        lo
    } else if is_ws(s[j - 1]) {
        trim_end_idx(s, lo, j - 1)
    } else {
        j
    }
}

/// `str::trim_start`.
pub open spec fn trim_start(s: Seq<char>) -> Seq<char> {
    s.subrange(trim_start_idx(s, 0), s.len() as int)
}

/// `str::trim`.
pub open spec fn trim(s: Seq<char>) -> Seq<char> {
    let lo = trim_start_idx(s, 0);
    s.subrange(lo, trim_end_idx(s, lo, s.len() as int))
}

pub proof fn lemma_trim_start_idx(s: Seq<char>, i: int)
    requires
        0 <= i <= s.len(),
    ensures
        i <= trim_start_idx(s, i) <= s.len(),
    decreases s.len() - i,
{
    if i < s.len() && is_ws(s[i]) {
        lemma_trim_start_idx(s, i + 1);
    }
}

pub proof fn lemma_trim_end_idx(s: Seq<char>, lo: int, j: int)
    requires
        0 <= lo <= j <= s.len(),
    ensures
        lo <= trim_end_idx(s, lo, j) <= j,
    decreases j - lo,
{
    if j > lo && is_ws(s[j - 1]) {
        lemma_trim_end_idx(s, lo, j - 1);
    }
}

pub(crate) fn trim_bounds(v: &Vec<char>) -> (r: (usize, usize))
    ensures
        r.0 as int == trim_start_idx(v@, 0),
        r.1 as int == trim_end_idx(v@, r.0 as int, v@.len() as int),
        r.0 <= r.1 <= v@.len(),
{
    let mut i: usize = 0;
    proof {
        lemma_trim_start_idx(v@, 0);
    }
    while i < v.len() && char_is_ws(v[i])
        invariant
            i <= v@.len(),
            trim_start_idx(v@, 0) == trim_start_idx(v@, i as int),
        decreases v@.len() - i,
    {
        i = i + 1;
    }
    let mut j: usize = v.len();
    proof {
        lemma_trim_end_idx(v@, i as int, j as int);
    }
    while j > i && char_is_ws(v[j - 1])
        invariant
            i <= j <= v@.len(),
            trim_end_idx(v@, i as int, v@.len() as int) == trim_end_idx(v@, i as int, j as int),
        decreases j,
    {
        j = j - 1;
    }
    (i, j)
}

/// `str::trim`: drops leading and trailing whitespace.
pub fn trim_str(s: &str) -> (r: String)
    ensures
        r@ == trim(s@),
{
    let v = chars_of(s);
    let (i, j) = trim_bounds(&v);
    let w = vstd::slice::slice_subrange(v.as_slice(), i, j);
    string_from_chars(w)
}

/// `s` contains `pat` starting at `i`.
pub open spec fn occurs_at(s: Seq<char>, pat: Seq<char>, i: int) -> bool {
    0 <= i && i + pat.len() <= s.len() && s.subrange(i, i + pat.len()) == pat
}

/// `str::contains` for a string pattern.
pub open spec fn contains(s: Seq<char>, pat: Seq<char>) -> bool {
    exists|i: int| occurs_at(s, pat, i)
}

/// `str::starts_with`.
pub open spec fn starts_with(s: Seq<char>, pat: Seq<char>) -> bool {
    occurs_at(s, pat, 0)
}

/// `str::ends_with`.
pub open spec fn ends_with(s: Seq<char>, pat: Seq<char>) -> bool {
    occurs_at(s, pat, s.len() - pat.len())
}

fn occurs_at_exec(s: &Vec<char>, p: &Vec<char>, i: usize) -> (r: bool)
    ensures
        r == occurs_at(s@, p@, i as int),
{
    if i > s.len() || p.len() > s.len() - i {
        return false;
    }
    let mut k: usize = 0;
    while k < p.len()
        invariant
            i + p@.len() <= s@.len(),
            s@.len() == s.len(),
            k <= p@.len(),
            forall|m: int| 0 <= m < k ==> s@[i + m] == p@[m],
        decreases p@.len() - k,
    {
        if s[i + k] != p[k] {
            assert(s@.subrange(i as int, i + p@.len())[k as int] != p@[k as int]);
            return false;
        }
        k = k + 1;
    }
    assert(s@.subrange(i as int, i + p@.len()) =~= p@);
    true
}

/// `s.contains(pat)`.
pub fn str_contains(s: &str, pat: &str) -> (r: bool)
    ensures
        r == contains(s@, pat@),
{
    let v = chars_of(s);
    let p = chars_of(pat);
    let mut i: usize = 0;
    while i < v.len()
        invariant
            v@ == s@,
            p@ == pat@,
            i <= v@.len(),
            forall|j: int| 0 <= j < i ==> !occurs_at(s@, pat@, j),
        decreases v@.len() - i,
    {
        if occurs_at_exec(&v, &p, i) {
            return true;
        }
        i = i + 1;
    }
    if occurs_at_exec(&v, &p, i) {
        return true;
    }
    assert forall|j: int| !occurs_at(s@, pat@, j) by {
        if 0 <= j && j + pat@.len() <= s@.len() {
            assert(j < i || j == i);
        }
    }
    false
}

/// `s.starts_with(pat)`.
pub fn str_starts_with(s: &str, pat: &str) -> (r: bool)
    ensures
        r == starts_with(s@, pat@),
{
    let v = chars_of(s);
    let p = chars_of(pat);
    occurs_at_exec(&v, &p, 0)
}

/// `s.ends_with(pat)`.
pub fn str_ends_with(s: &str, pat: &str) -> (r: bool)
    ensures
        r == ends_with(s@, pat@),
{
    let v = chars_of(s);
    let p = chars_of(pat);
    if p.len() > v.len() {
        return false;
    }
    occurs_at_exec(&v, &p, v.len() - p.len())
}

} // verus!
