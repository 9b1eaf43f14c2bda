//! The activity log: one JSON object per line, newest last, capped at a
//! number of lines (an overflowing append keeps only the newest lines).
use vstd::prelude::*;
use crate::text::{chars_of, concat, string_from_chars, str_eq};
use crate::json::{Json, JsonValue, JsonNumber};
use crate::clock::now_rfc3339;
use crate::deploy::views;

verus! {

/// Characters of a message kept.
pub open spec fn max_message_chars() -> nat {
    2000
}

/// Characters of a source kept.
pub open spec fn max_source_chars() -> nat {
    32
}

/// One entry of the log.
#[derive(Debug, PartialEq)]
pub struct LogEntry {
    pub ts: String,
    pub level: String,
    pub source: String,
    pub msg: String,
}

/// The level an entry is logged at: `warn` and `error` are kept, anything
/// else is `info`.
pub open spec fn level_spec(level: Seq<char>) -> Seq<char> {
    if level == "warn"@ || level == "error"@ {
        level
    } else {
        "info"@
    }
}

fn take_chars(s: &str, n: usize) -> (r: String)
    ensures
        r@ == if s@.len() <= n { s@ } else { s@.take(n as int) },
{
    let v = chars_of(s);
    if v.len() <= n {
        return string_from_chars(v.as_slice());
    }
    let w = vstd::slice::slice_subrange(v.as_slice(), 0, n);
    assert(w@ =~= s@.take(n as int));
    string_from_chars(w)
}

/// `s` cut to its first `n` characters.
pub open spec fn cut(s: Seq<char>, n: nat) -> Seq<char> {
    if s.len() <= n {
        s
    } else {
        s.take(n as int)
    }
}

/// The entry logged for `level`, `source` and `message` at time `ts`: the
/// level normalized, the source cut to 32 characters, the message to 2000.
pub fn sanitize_at(level: &str, source: &str, message: &str, ts: String) -> (r: LogEntry)
    ensures
        r.ts@ == ts@,
        r.level@ == level_spec(level@),
        r.source@ == cut(source@, max_source_chars()),
        r.msg@ == cut(message@, max_message_chars()),
{
    let lv = if str_eq(level, "warn") || str_eq(level, "error") {
        level.to_owned()
    } else {
        "info".to_owned()
    };
    LogEntry { ts, level: lv, source: take_chars(source, 32), msg: take_chars(message, 2000) }
}

/// The entry logged now (see `sanitize_at`; the time is the clock's).
pub fn sanitize_entry(level: &str, source: &str, message: &str) -> (r: LogEntry)
    ensures
        r.level@ == level_spec(level@),
        r.source@ == cut(source@, max_source_chars()),
        r.msg@ == cut(message@, max_message_chars()),
{
    let ts = now_rfc3339();
    sanitize_at(level, source, message, ts)
}

/// The log's cap from the settings: `logs_max_lines` when it is a
/// non-negative integer, kept within 100 and 100000; else 2000.
pub open spec fn max_lines_spec(settings: Json) -> int {
    match settings.get_key("logs_max_lines"@) {
        Some(Json::Num(JsonNumber::PosInt(n))) => if n < 100 {
            100
        } else if n > 100000 {
            100000
        } else {
            n as int
        },
        _ => 2000,
    }
}

/// The log's cap from the settings (see `max_lines_spec`).
pub fn max_lines_from(settings: &JsonValue) -> (r: usize)
    ensures
        r as int == max_lines_spec(settings.model()),
{
    match settings.get("logs_max_lines") {
        Some(v) => match v.as_u64() {
            Some(n) => if n < 100 {
                100
            } else if n > 100000 {
                100000
            } else {
                n as usize
            },
            None => 2000,
        },
        None => 2000,
    }
}

// ---------------------------------------------------------------------------
// Lines
// ---------------------------------------------------------------------------

/// Index of the first `\n` in `t` at or after `i`.
pub open spec fn next_nl(t: Seq<char>, i: int) -> Option<int>
    decreases t.len() - i,
{
    if i < 0 || i >= t.len() {
        None
    } else if t[i] == '\n' {
        Some(i)
    } else {
        next_nl(t, i + 1)
    }
}

pub proof fn lemma_next_nl(t: Seq<char>, i: int)
    requires
        0 <= i <= t.len(),
    ensures
        next_nl(t, i) matches Some(j) ==> i <= j < t.len() && t[j] == '\n' && forall|k: int|
            i <= k < j ==> t[k] != '\n',
        next_nl(t, i) is None ==> forall|k: int| i <= k < t.len() ==> t[k] != '\n',
    decreases t.len() - i,
{
    if i < t.len() && t[i] != '\n' {
        lemma_next_nl(t, i + 1);
    }
}

/// A line without the `\r` of a `\r\n` ending.
pub open spec fn strip_cr(x: Seq<char>) -> Seq<char> {
    if x.len() > 0 && x.last() == '\r' {
        x.drop_last()
    } else {
        x
    }
}

/// `str::lines`: the text split at `\n` (and `\r\n`), endings dropped; a
/// final line ending adds no empty line.
pub open spec fn lines_spec(t: Seq<char>) -> Seq<Seq<char>>
    decreases t.len(),
{
    if t.len() == 0 {
        Seq::empty()
    } else {
        match next_nl(t, 0) {
            None => seq![t],
            Some(i) => {
                proof {
                    lemma_next_nl(t, 0);
                }
                seq![strip_cr(t.take(i))] + lines_spec(t.skip(i + 1))
            },
        }
    }
}

/// Splits a text into lines (see `lines_spec`).
pub fn split_lines(text: &str) -> (r: Vec<String>)
    ensures
        views(r@) == lines_spec(text@),
{
    let v = chars_of(text);
    let mut out: Vec<String> = Vec::new();
    let mut start: usize = 0;
    let n = v.len();
    assert(v@.skip(0) =~= v@);
    while start < n
        invariant
            n == v@.len(),
            v@ == text@,
            start <= n,
            views(out@) + lines_spec(v@.skip(start as int)) == lines_spec(text@),
        decreases n - start,
    {
        let ghost rest = v@.skip(start as int);
        let mut j: usize = start;
        while j < n && v[j] != '\n'
            invariant
                start <= j <= n,
                n == v@.len(),
                forall|k: int| start <= k < j ==> v@[k] != '\n',
            decreases n - j,
        {
            j = j + 1;
        }
        proof {
            lemma_next_nl(rest, 0);
            if j < n {
                assert(rest[j - start] == '\n');
                assert(forall|k: int| 0 <= k < j - start ==> rest[k] == v@[start + k]);
                assert(next_nl(rest, 0) == Some((j - start) as int)) by {
                    if next_nl(rest, 0) != Some((j - start) as int) {
                        match next_nl(rest, 0) {
                            Some(q) => {
                                if q < j - start {
                                    assert(rest[q] == v@[start + q]);
                                }
                            },
                            None => {},
                        }
                    }
                }
            } else {
                assert(next_nl(rest, 0) is None) by {
                    match next_nl(rest, 0) {
                        Some(q) => {
                            assert(rest[q] == v@[start + q]);
                        },
                        None => {},
                    }
                }
            }
        }
        let mut end = j;
        if j < n && end > start && v[end - 1] == '\r' {
            end = end - 1;
        }
        let piece = vstd::slice::slice_subrange(v.as_slice(), start, end);
        let ghost before = out@;
        out.push(string_from_chars(piece));
        proof {
            if j < n {
                assert(piece@ =~= strip_cr(rest.take(j - start)));
                assert(rest.skip(j - start + 1) =~= v@.skip(j + 1));
                assert(views(out@) =~= views(before).push(piece@));
            } else {
                assert(piece@ =~= rest);
                assert(views(out@) =~= views(before).push(piece@));
            }
        }
        if j < n {
            start = j + 1;
        } else {
            start = n;
            assert(v@.skip(n as int) =~= Seq::<char>::empty());
        }
    }
    assert(v@.skip(n as int) =~= Seq::<char>::empty());
    assert(views(out@) =~= views(out@) + Seq::<Seq<char>>::empty());
    out
}

// ---------------------------------------------------------------------------
// Appending
// ---------------------------------------------------------------------------

/// `lines`, each followed by `\n`.
pub open spec fn unlines(lines: Seq<Seq<char>>) -> Seq<char>
    decreases lines.len(),
{
    if lines.len() == 0 {
        Seq::empty()
    } else {
        unlines(lines.drop_last()) + lines.last() + seq!['\n']
    }
}

/// The last `n` items of `s` (all of them when there are fewer).
pub open spec fn newest(s: Seq<Seq<char>>, n: nat) -> Seq<Seq<char>> {
    if s.len() <= n {
        s
    } else {
        s.skip(s.len() - n)
    }
}

/// How a log file changes when an entry is appended.
#[derive(Debug, PartialEq)]
pub enum LogWrite {
    /// Add this text at the end of the file.
    Append(String),
    /// Replace the file's text by this.
    Rewrite(String),
}

/// Appending `line` to a log whose text is `old`, capped at `max` lines:
/// when the lines then number more than `max`, the file is rewritten with
/// the newest `max` of them, each ended by `\n`; otherwise the line and
/// `\n` are appended.
pub open spec fn append_spec(old: Seq<char>, line: Seq<char>, max: nat) -> (bool, Seq<char>) {
    let all = lines_spec(old).push(line);
    if all.len() > max {
        (true, unlines(newest(all, max)))
    } else {
        (false, line + seq!['\n'])
    }
}

fn join_lines(lines: &Vec<String>, from: usize) -> (r: String)
    requires
        from <= lines@.len(),
    ensures
        r@ == unlines(views(lines@).skip(from as int)),
{
    let ghost vs = views(lines@);
    let mut acc: Vec<char> = Vec::new();
    let mut i: usize = from;
    assert(vs.skip(from as int).take(0) =~= Seq::<Seq<char>>::empty());
    while i < lines.len()
        invariant
            from <= i <= lines@.len(),
            vs == views(lines@),
            acc@ == unlines(vs.skip(from as int).take(i - from)),
        decreases lines@.len() - i,
    {
        let cs = chars_of(lines[i].as_str());
        let mut k: usize = 0;
        let ghost base = acc@;
        while k < cs.len()
            invariant
                k <= cs@.len(),
                acc@ == base + cs@.take(k as int),
            decreases cs@.len() - k,
        {
            acc.push(cs[k]);
            k = k + 1;
            assert(acc@ =~= base + cs@.take(k as int));
        }
        acc.push('\n');
        proof {
            let t = vs.skip(from as int).take(i + 1 - from);
            assert(t.drop_last() =~= vs.skip(from as int).take(i - from));
            assert(t.last() == lines@[i as int]@);
            assert(cs@.take(cs@.len() as int) =~= cs@);
            assert(acc@ =~= unlines(t));
        }
        i = i + 1;
    }
    assert(vs.skip(from as int).take(lines@.len() - from) =~= vs.skip(from as int));
    string_from_chars(acc.as_slice())
}

/// Decides how the log file changes when `line` is appended (see
/// `append_spec`).
pub fn plan_append(old: &str, line: &str, max: usize) -> (r: LogWrite)
    ensures
        match r {
            LogWrite::Rewrite(t) => append_spec(old@, line@, max as nat) == (true, t@),
            LogWrite::Append(t) => append_spec(old@, line@, max as nat) == (false, t@),
        },
{
    let mut lines = split_lines(old);
    let ghost before = views(lines@);
    lines.push(line.to_owned());
    assert(views(lines@) =~= before.push(line@));
    if lines.len() > max {
        let drop = lines.len() - max;
        let t = join_lines(&lines, drop);
        LogWrite::Rewrite(t)
    } else {
        proof {
            reveal_strlit("\n");
            assert("\n"@ =~= seq!['\n']);
        }
        LogWrite::Append(concat(line, "\n"))
    }
}

// ---------------------------------------------------------------------------
// The cap keeps the newest lines
// ---------------------------------------------------------------------------

proof fn lemma_lines_cons(x: Seq<char>, rest: Seq<char>)
    requires
        !x.contains('\n'),
    ensures
        lines_spec(x + seq!['\n'] + rest) == seq![strip_cr(x)] + lines_spec(rest),
{
    let t = x + seq!['\n'] + rest;
    lemma_next_nl(t, 0);
    assert(t[x.len() as int] == '\n');
    assert(next_nl(t, 0) == Some(x.len() as int)) by {
        match next_nl(t, 0) {
            Some(q) => {
                if q < x.len() {
                    assert(t[q] == x[q]);
                    assert(x.contains(x[q]));
                }
            },
            None => {},
        }
    }
    assert(t.take(x.len() as int) =~= x);
    assert(t.skip(x.len() as int + 1) =~= rest);
}

/// A line the log keeps intact through a rewrite: no line break in it, and
/// no `\r` at its end.
pub open spec fn plain_line(x: Seq<char>) -> bool {
    !x.contains('\n') && !(x.len() > 0 && x.last() == '\r')
}

proof fn lemma_lines_unlines(xs: Seq<Seq<char>>, rest: Seq<char>)
    requires
        forall|i: int| 0 <= i < xs.len() ==> plain_line(#[trigger] xs[i]),
    ensures
        lines_spec(unlines(xs) + rest) == xs + lines_spec(rest),
    decreases xs.len(),
{
    if xs.len() > 0 {
        let h = xs[0];
        let tl = xs.drop_first();
        lemma_unlines_first(xs);
        assert(plain_line(h));
        lemma_lines_unlines(tl, rest);
        assert(unlines(xs) + rest =~= h + seq!['\n'] + (unlines(tl) + rest));
        lemma_lines_cons(h, unlines(tl) + rest);
        assert(strip_cr(h) == h);
        assert(xs =~= seq![h] + tl);
    } else {
        assert(unlines(xs) + rest =~= rest);
        assert(xs + lines_spec(rest) =~= lines_spec(rest));
    }
}

proof fn lemma_unlines_first(xs: Seq<Seq<char>>)
    requires
        xs.len() > 0,
    ensures
        unlines(xs) == xs[0] + seq!['\n'] + unlines(xs.drop_first()),
    decreases xs.len(),
{
    if xs.len() > 1 {
        lemma_unlines_first(xs.drop_last());
        assert(xs.drop_last().drop_first() =~= xs.drop_first().drop_last());
        assert(xs.drop_first().last() == xs.last());
    } else {
        assert(xs.drop_first() =~= Seq::<Seq<char>>::empty());
        assert(xs.drop_last() =~= Seq::<Seq<char>>::empty());
    }
}

/// The text of a log file as this code writes it: empty, or lines each
/// ended by `\n`.
pub open spec fn well_ended(t: Seq<char>) -> bool {
    t.len() == 0 || t.last() == '\n'
}

proof fn lemma_lines_append(a: Seq<char>, b: Seq<char>)
    requires
        well_ended(a),
    ensures
        lines_spec(a + b) == lines_spec(a) + lines_spec(b),
    decreases a.len(),
{
    if a.len() == 0 {
        assert(a + b =~= b);
        assert(lines_spec(a) + lines_spec(b) =~= lines_spec(b));
    } else {
        lemma_next_nl(a, 0);
        let i = next_nl(a, 0)->0;
        let x = a.take(i);
        let ra = a.skip(i + 1);
        assert(!x.contains('\n')) by {
            if x.contains('\n') {
                let k = x.index_of('\n');
                assert(a[k] == x[k]);
            }
        }
        assert(a =~= x + seq!['\n'] + ra);
        assert(a + b =~= x + seq!['\n'] + (ra + b));
        lemma_lines_cons(x, ra);
        lemma_lines_cons(x, ra + b);
        assert(well_ended(ra)) by {
            if ra.len() > 0 {
                assert(ra.last() == a.last());
            }
        }
        lemma_lines_append(ra, b);
    }
}

/// Appending to a log keeps its newest lines: for a log written as lines
/// each ended by `\n` or `\r\n` (or empty) and a new line without a line
/// break or trailing `\r` (a JSON line is such), the file after the append
/// reads back as the old lines plus the new one, cut to the newest `max`.
/// When the cap is not reached this holds of every old text so ended; when
/// a rewrite is needed it holds unless an old line still ends in `\r` once
/// its ending is dropped (as in `a\r\r\n`), which the rewrite cannot keep.
pub proof fn law_append_keeps_newest(old: Seq<char>, line: Seq<char>, max: nat)
    requires
        max > 0,
        well_ended(old),
        plain_line(line),
    ensures
        ({
            let (rewrite, text) = append_spec(old, line, max);
            let after = if rewrite { text } else { old + text };
            &&& !rewrite ==> lines_spec(after) == lines_spec(old).push(line)
            &&& (forall|i: int| 0 <= i < lines_spec(old).len() ==> plain_line(#[trigger] lines_spec(old)[i]))
                ==> lines_spec(after) == newest(lines_spec(old).push(line), max)
        }),
{
    let all = lines_spec(old).push(line);
    if all.len() > max {
        if forall|i: int| 0 <= i < lines_spec(old).len() ==> plain_line(#[trigger] lines_spec(old)[i]) {
            assert forall|i: int| 0 <= i < all.len() implies plain_line(#[trigger] all[i]) by {
                if i < lines_spec(old).len() {
                    assert(all[i] == lines_spec(old)[i]);
                }
            }
            let kept = newest(all, max);
            assert forall|i: int| 0 <= i < kept.len() implies plain_line(#[trigger] kept[i]) by {
                assert(kept[i] == all[i + (all.len() - max)]);
            }
            lemma_lines_unlines(kept, Seq::empty());
            assert(unlines(kept) + Seq::<char>::empty() =~= unlines(kept));
            assert(lines_spec(Seq::<char>::empty()) =~= Seq::<Seq<char>>::empty());
            assert(kept + Seq::<Seq<char>>::empty() =~= kept);
        }
    } else {
        lemma_lines_append(old, line + seq!['\n']);
        assert(line + seq!['\n'] =~= line + seq!['\n'] + Seq::<char>::empty());
        lemma_lines_cons(line, Seq::empty());
        assert(lines_spec(Seq::<char>::empty()) =~= Seq::<Seq<char>>::empty());
        assert(strip_cr(line) == line);
        assert(seq![line] + Seq::<Seq<char>>::empty() =~= seq![line]);
        assert(lines_spec(old) + seq![line] =~= all);
    }
}

} // verus!
