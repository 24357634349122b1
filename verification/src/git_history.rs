//! Commit records extracted from the output of the external `git log` query.
//!
//! The query is asked for one line per commit, shaped
//! `"<author>\t<RFC 3339 timestamp>"` (quoted, tab-separated), newest first.
//! This module parses that output, format-exactly: a line that does not have
//! that shape is a malformed-output error, never a silently wrong record.

use chrono::Datelike;
use vstd::prelude::*;
use vstd::string::*;
use vstd::utf8::{decode_utf8, valid_utf8};

use crate::date::UtcDate;

verus! {

/// A single entry of the file's history: the committer's display name and the
/// commit instant, normalized to its UTC calendar date.
pub struct GitHistoryEntry {
    pub author: String,
    pub timestamp: UtcDate,
}

/// The mathematical content of a [`GitHistoryEntry`].
pub struct CommitView {
    pub author: Seq<char>,
    pub timestamp: UtcDate,
}

impl View for GitHistoryEntry {
    type V = CommitView;

    open spec fn view(&self) -> CommitView {
        CommitView { author: self.author@, timestamp: self.timestamp }
    }
}

impl GitHistoryEntry {
    /// Records come only from parsing: a non-empty author and an ordinary
    /// calendar date.
    pub open spec fn wf(self) -> bool {
        self.author@.len() > 0 && self.timestamp.wf()
    }
}

impl Clone for GitHistoryEntry {
    fn clone(&self) -> (r: Self)
        ensures
            r == *self,
    {
        GitHistoryEntry { author: self.author.clone(), timestamp: self.timestamp }
    }
}

/// Why extraction failed for one file.
#[derive(Debug)]
pub enum ExtractError {
    /// The external query could not be launched at all.
    ToolUnavailable,
    /// The external query ran but exited with a non-zero status; the captured
    /// streams are kept for diagnosis.
    QueryFailed { code: i32, stdout: Vec<u8>, stderr: Vec<u8> },
    /// The captured output was not valid text, or a line did not have the
    /// expected `author<TAB>timestamp` shape.
    MalformedOutput,
}

/// `s` with every leading `"` removed.
pub open spec fn trim_start_quotes(s: Seq<char>) -> Seq<char>
    decreases s.len(),
{
    if s.len() > 0 && s[0] == '"' {
        trim_start_quotes(s.drop_first())
    } else {
        s
    }
}

/// `s` with every trailing `"` removed.
pub open spec fn trim_end_quotes(s: Seq<char>) -> Seq<char>
    decreases s.len(),
{
    if s.len() > 0 && s.last() == '"' {
        trim_end_quotes(s.drop_last())
    } else {
        s
    }
}

/// `s` stripped of surrounding quote characters, as the query's quoted line
/// format requires before splitting.
pub open spec fn trim_quotes(s: Seq<char>) -> Seq<char> {
    trim_end_quotes(trim_start_quotes(s))
}

/// Whether `s` holds a tab character anywhere.
pub open spec fn has_tab(s: Seq<char>) -> bool {
    exists|i: int| 0 <= i < s.len() && s[i] == '\t'
}

/// The two fields of a line: the text before and after its tab, provided the
/// line holds exactly one tab; `None` otherwise.
pub open spec fn split_fields(s: Seq<char>) -> Option<(Seq<char>, Seq<char>)>
    decreases s.len(),
{
    if s.len() == 0 {
        None
    } else if s[0] == '\t' {
        if has_tab(s.drop_first()) {
            None
        } else {
            Some((Seq::empty(), s.drop_first()))
        }
    } else {
        match split_fields(s.drop_first()) {
            None => None,
            Some(p) => Some((seq![s[0]] + p.0, p.1)),
        }
    }
}

/// What `chrono` makes of an RFC 3339 timestamp: the calendar date (year,
/// month, day) of the instant once converted to UTC, or `None` where the text
/// is not a valid RFC 3339 date-and-time. The result depends on the text
/// alone.
pub uninterp spec fn rfc3339_utc_date(s: Seq<char>) -> Option<(int, int, int)>;

/// Relies on `chrono::DateTime::parse_from_rfc3339`, which accepts exactly
/// the valid RFC 3339 date-and-time strings, on `DateTime::with_timezone` for
/// the conversion to UTC, and on `chrono`'s `Datelike` accessors, documented
/// to return the month starting from 1 (so 1 to 12) and the day of the month
/// starting from 1 (so 1 to 31).
#[verifier::external_body]
fn parse_rfc3339_utc(s: &str) -> (r: Option<UtcDate>)
    ensures
        r is Some <==> rfc3339_utc_date(s@) is Some,
        r matches Some(d) ==> rfc3339_utc_date(s@) == Some(
            (d.year as int, d.month as int, d.day as int),
        ) && d.wf(),
{
    match chrono::DateTime::parse_from_rfc3339(s) {
        Ok(dt) => {
            let utc = dt.with_timezone(&chrono::Utc);
            Some(
                UtcDate {
                    year: utc.year(),
                    month: utc.month() as u8,
                    day: utc.day() as u8,
                },
            )
        },
        Err(_) => None,
    }
}

/// What one output line means: after quote-stripping it must split into a
/// non-empty author, one tab, and a timestamp that parses as RFC 3339.
pub open spec fn parse_line_spec(line: Seq<char>) -> Option<CommitView> {
    match split_fields(trim_quotes(line)) {
        None => None,
        Some(p) => if p.0.len() == 0 {
            None
        } else {
            match rfc3339_utc_date(p.1) {
                None => None,
                Some(t) => Some(
                    CommitView {
                        author: p.0,
                        timestamp: UtcDate { year: t.0 as i32, month: t.1 as u8, day: t.2 as u8 },
                    },
                ),
            }
        },
    }
}

/// A tab-free sequence never splits into two fields.
proof fn lemma_split_fields_no_tab(s: Seq<char>)
    requires
        !has_tab(s),
    ensures
        split_fields(s) is None,
    decreases s.len(),
{
    if s.len() > 0 {
        assert(s[0] != '\t');
        assert(!has_tab(s.drop_first())) by {
            if has_tab(s.drop_first()) {
                let i = choose|i: int| 0 <= i < s.drop_first().len() && s.drop_first()[i] == '\t';
                assert(s[i + 1] == '\t');
            }
        }
        lemma_split_fields_no_tab(s.drop_first());
    }
}

/// With a single tab at `ti`, the split yields the text on either side.
proof fn lemma_split_fields_unique_tab(s: Seq<char>, ti: int)
    requires
        0 <= ti < s.len(),
        s[ti] == '\t',
        forall|j: int| 0 <= j < s.len() && j != ti ==> s[j] != '\t',
    ensures
        split_fields(s) == Some((s.take(ti), s.skip(ti + 1))),
    decreases s.len(),
{
    if ti == 0 {
        assert(!has_tab(s.drop_first())) by {
            if has_tab(s.drop_first()) {
                let i = choose|i: int| 0 <= i < s.drop_first().len() && s.drop_first()[i] == '\t';
                assert(s[i + 1] == '\t');
            }
        }
        assert(s.take(0) =~= Seq::<char>::empty());
        assert(s.skip(1) =~= s.drop_first());
    } else {
        assert(s[0] != '\t');
        assert forall|j: int| 0 <= j < s.drop_first().len() && j != ti - 1 implies s.drop_first()[j]
            != '\t' by {
            assert(s.drop_first()[j] == s[j + 1]);
        }
        assert(s.drop_first()[ti - 1] == '\t');
        lemma_split_fields_unique_tab(s.drop_first(), ti - 1);
        assert(seq![s[0]] + s.drop_first().take(ti - 1) =~= s.take(ti));
        assert(s.drop_first().skip(ti) =~= s.skip(ti + 1));
    }
}

/// With two tabs the split refuses the line.
proof fn lemma_split_fields_two_tabs(s: Seq<char>, t1: int, t2: int)
    requires
        0 <= t1 < t2 < s.len(),
        s[t1] == '\t',
        s[t2] == '\t',
    ensures
        split_fields(s) is None,
    decreases s.len(),
{
    if t1 == 0 {
        assert(s.drop_first()[t2 - 1] == '\t');
        assert(has_tab(s.drop_first()));
    } else if s[0] == '\t' {
        assert(s.drop_first()[t1 - 1] == '\t');
        assert(has_tab(s.drop_first()));
    } else {
        assert(s.drop_first()[t1 - 1] == '\t');
        assert(s.drop_first()[t2 - 1] == '\t');
        lemma_split_fields_two_tabs(s.drop_first(), t1 - 1, t2 - 1);
    }
}

/// What a successful split reveals of the line: the single tab sits right
/// after the first field, and the two fields surround it.
proof fn lemma_split_fields_inverse(s: Seq<char>)
    requires
        split_fields(s) is Some,
    ensures
        ({
            let p = split_fields(s)->0;
            &&& 0 <= p.0.len() < s.len()
            &&& s[p.0.len() as int] == '\t'
            &&& forall|j: int| 0 <= j < s.len() && j != p.0.len() ==> s[j] != '\t'
            &&& p.0 == s.take(p.0.len() as int)
            &&& p.1 == s.skip(p.0.len() as int + 1)
        }),
    decreases s.len(),
{
    let p = split_fields(s)->0;
    if s[0] == '\t' {
        assert(p.0 =~= s.take(0));
        assert(p.1 =~= s.skip(1));
        assert forall|j: int| 0 <= j < s.len() && j != p.0.len() implies s[j] != '\t' by {
            if s[j] == '\t' {
                assert(s.drop_first()[j - 1] == '\t');
                assert(has_tab(s.drop_first()));
            }
        }
    } else {
        lemma_split_fields_inverse(s.drop_first());
        let q = split_fields(s.drop_first())->0;
        assert(p.0 == seq![s[0]] + q.0);
        assert(p.0.len() == q.0.len() + 1);
        assert(s.drop_first()[q.0.len() as int] == s[p.0.len() as int]);
        assert forall|j: int| 0 <= j < s.len() && j != p.0.len() implies s[j] != '\t' by {
            if j > 0 && s[j] == '\t' {
                assert(s.drop_first()[j - 1] == '\t');
            }
        }
        assert(p.0 =~= s.take(p.0.len() as int)) by {
            assert forall|j: int| 0 <= j < p.0.len() implies p.0[j] == s[j] by {
                if j > 0 {
                    assert(p.0[j] == q.0[j - 1]);
                    assert(q.0[j - 1] == s.drop_first().take(q.0.len() as int)[j - 1]);
                }
            }
        }
        assert(p.1 == s.drop_first().skip(q.0.len() as int + 1));
        assert(p.1 =~= s.skip(p.0.len() as int + 1));
    }
}

/// Parsing is format-exact: a line yields a record exactly when, after
/// quote-stripping, it is a non-empty author, one single tab, and a
/// timestamp accepted as RFC 3339; any other line is refused, never read as
/// a silently wrong record.
pub proof fn lemma_parse_line_format_exact(line: Seq<char>)
    ensures
        parse_line_spec(line) is Some <==> ({
            let t = trim_quotes(line);
            exists|i: int|
                1 <= i < t.len() && (#[trigger] t[i]) == '\t' && (forall|j: int|
                    0 <= j < t.len() && j != i ==> t[j] != '\t') && rfc3339_utc_date(
                    t.skip(i + 1),
                ) is Some
        }),
{
    let t = trim_quotes(line);
    if parse_line_spec(line) is Some {
        lemma_split_fields_inverse(t);
        let p = split_fields(t)->0;
        let w = p.0.len() as int;
        assert(1 <= w < t.len() && t[w] == '\t' && (forall|j: int|
            0 <= j < t.len() && j != w ==> t[j] != '\t') && rfc3339_utc_date(t.skip(w + 1)) is Some);
    }
    if ({
        exists|i: int|
            1 <= i < t.len() && (#[trigger] t[i]) == '\t' && (forall|j: int|
                0 <= j < t.len() && j != i ==> t[j] != '\t') && rfc3339_utc_date(
                t.skip(i + 1),
            ) is Some
    }) {
        let i = choose|i: int|
            1 <= i < t.len() && (#[trigger] t[i]) == '\t' && (forall|j: int|
                0 <= j < t.len() && j != i ==> t[j] != '\t') && rfc3339_utc_date(
                t.skip(i + 1),
            ) is Some;
        lemma_split_fields_unique_tab(t, i);
        assert(t.take(i).len() == i);
        assert(parse_line_spec(line) is Some);
    }
}

/// Parses one line of the query's output into a commit record.
///
/// The result is exactly what [`parse_line_spec`] says of the line: `None`
/// for any line that does not match `"<author><TAB><RFC 3339 timestamp>"`
/// after quote-stripping.
pub fn parse_line(line: &str) -> (r: Option<GitHistoryEntry>)
    ensures
        r is Some <==> parse_line_spec(line@) is Some,
        r matches Some(e) ==> parse_line_spec(line@) == Some(e@) && e.wf(),
{
    let n = line.unicode_len();
    proof {
        assert(line@.skip(0) =~= line@);
    }
    // Strip the leading quote characters.
    let mut a: usize = 0;
    while a < n && line.get_char(a) == '"'
        invariant
            0 <= a <= n == line@.len(),
            trim_start_quotes(line@) == trim_start_quotes(line@.skip(a as int)),
        decreases n - a,
    {
        proof {
            assert(line@.skip(a as int).drop_first() =~= line@.skip(a as int + 1));
        }
        a = a + 1;
    }
    proof {
        assert(trim_start_quotes(line@.skip(a as int)) == line@.skip(a as int));
        assert(line@.skip(a as int) =~= line@.subrange(a as int, n as int));
    }
    // Strip the trailing quote characters.
    let mut b: usize = n;
    while b > a && line.get_char(b - 1) == '"'
        invariant
            a <= b <= n == line@.len(),
            trim_quotes(line@) == trim_end_quotes(line@.subrange(a as int, b as int)),
        decreases b,
    {
        proof {
            assert(line@.subrange(a as int, b as int).drop_last() =~= line@.subrange(
                a as int,
                b as int - 1,
            ));
        }
        b = b - 1;
    }
    let ghost trimmed = line@.subrange(a as int, b as int);
    proof {
        assert(trim_quotes(line@) == trimmed);
    }
    // Find the first tab.
    let mut t: usize = a;
    while t < b && line.get_char(t) != '\t'
        invariant
            a <= t <= b <= line@.len(),
            forall|j: int| a <= j < t ==> line@[j] != '\t',
        decreases b - t,
    {
        t = t + 1;
    }
    if t == b {
        // No tab at all: not a record line.
        proof {
            assert(!has_tab(trimmed)) by {
                if has_tab(trimmed) {
                    let i = choose|i: int| 0 <= i < trimmed.len() && trimmed[i] == '\t';
                    assert(line@[a + i] == '\t');
                }
            }
            lemma_split_fields_no_tab(trimmed);
        }
        return None;
    }
    // Make sure it is the only one.
    let mut u: usize = t + 1;
    while u < b && line.get_char(u) != '\t'
        invariant
            t < u <= b <= line@.len(),
            forall|j: int| t < j < u ==> line@[j] != '\t',
        decreases b - u,
    {
        u = u + 1;
    }
    if u < b {
        // A second tab: more than two fields.
        proof {
            lemma_split_fields_two_tabs(trimmed, t - a, u - a);
        }
        return None;
    }
    if t == a {
        // An empty author field.
        proof {
            lemma_split_fields_unique_tab(trimmed, 0);
            assert(trimmed.take(0) =~= Seq::<char>::empty());
        }
        return None;
    }
    proof {
        assert forall|j: int| 0 <= j < trimmed.len() && j != t - a implies trimmed[j] != '\t' by {
            assert(trimmed[j] == line@[a + j]);
        }
        assert(trimmed[t - a] == '\t');
        lemma_split_fields_unique_tab(trimmed, t - a);
        assert(trimmed.take(t - a) =~= line@.subrange(a as int, t as int));
        assert(trimmed.skip(t - a + 1) =~= line@.subrange(t as int + 1, b as int));
    }
    let author = line.substring_char(a, t);
    let stamp = line.substring_char(t + 1, b);
    match parse_rfc3339_utc(stamp) {
        None => None,
        Some(d) => Some(GitHistoryEntry { author: String::from_str(author), timestamp: d }),
    }
}

/// The first `k` characters of `s`, less a carriage return directly before
/// the line break at `k`.
pub open spec fn stripped_line(s: Seq<char>, k: int) -> Seq<char> {
    if k >= 1 && s[k - 1] == '\r' {
        s.take(k - 1)
    } else {
        s.take(k)
    }
}

/// The lines of `s`, split at `\n` or `\r\n`, without a final empty line for
/// a trailing line break.
pub open spec fn split_lines(s: Seq<char>) -> Seq<Seq<char>>
    decreases s.len(),
{
    if s.len() == 0 {
        Seq::empty()
    } else if s[0] == '\n' {
        seq![Seq::<char>::empty()] + split_lines(s.drop_first())
    } else if s[0] == '\r' && s.len() >= 2 && s[1] == '\n' {
        seq![Seq::<char>::empty()] + split_lines(s.skip(2))
    } else {
        let rest = split_lines(s.drop_first());
        if rest.len() == 0 {
            seq![seq![s[0]]]
        } else {
            seq![seq![s[0]] + rest[0]] + rest.drop_first()
        }
    }
}

/// How `split_lines` consumes its input: up to the first line break it yields
/// one (stripped) line, then continues after the break; with no break at all
/// the whole text is the one line.
proof fn lemma_split_lines_first(s: Seq<char>, k: int)
    requires
        0 <= k <= s.len(),
        k < s.len() ==> s[k] == '\n',
        forall|j: int| 0 <= j < k ==> s[j] != '\n',
    ensures
        k == s.len() && s.len() > 0 ==> split_lines(s) == seq![s],
        k < s.len() ==> split_lines(s) == seq![stripped_line(s, k)] + split_lines(s.skip(k + 1)),
    decreases s.len(),
{
    if s.len() == 0 {
    } else if k == 0 {
        assert(stripped_line(s, 0) =~= Seq::<char>::empty());
        assert(s.skip(1) =~= s.drop_first());
    } else if k < s.len() && k == 1 && s[0] == '\r' {
        assert(s[1] == '\n');
        assert(stripped_line(s, 1) =~= Seq::<char>::empty());
        assert(s.skip(2) =~= s.skip(k + 1));
    } else {
        assert(s[0] != '\n');
        assert(!(s[0] == '\r' && s.len() >= 2 && s[1] == '\n')) by {
            if s[0] == '\r' && s.len() >= 2 && s[1] == '\n' {
                assert(k <= 1);
            }
        }
        let d = s.drop_first();
        assert forall|j: int| 0 <= j < k - 1 implies d[j] != '\n' by {
            assert(d[j] == s[j + 1]);
        }
        if k < s.len() {
            assert(d[k - 1] == '\n');
        }
        lemma_split_lines_first(d, k - 1);
        let rest = split_lines(d);
        if k == s.len() {
            if d.len() == 0 {
                assert(split_lines(s) == seq![seq![s[0]]]);
                assert(seq![s[0]] =~= s);
            } else {
                assert(rest == seq![d]);
                assert(seq![s[0]] + d =~= s);
                assert(rest.drop_first() =~= Seq::<Seq<char>>::empty());
                assert(split_lines(s) =~= seq![s]);
            }
        } else {
            assert(rest == seq![stripped_line(d, k - 1)] + split_lines(d.skip(k)));
            assert(rest.len() > 0);
            assert(rest[0] == stripped_line(d, k - 1));
            assert(seq![s[0]] + stripped_line(d, k - 1) =~= stripped_line(s, k)) by {
                if k - 1 >= 1 && d[k - 2] == '\r' {
                    assert(seq![s[0]] + d.take(k - 2) =~= s.take(k - 1));
                } else {
                    assert(seq![s[0]] + d.take(k - 1) =~= s.take(k));
                }
            }
            assert(rest.drop_first() =~= split_lines(d.skip(k)));
            assert(d.skip(k) =~= s.skip(k + 1));
            assert(split_lines(s) =~= seq![stripped_line(s, k)] + split_lines(s.skip(k + 1)));
        }
    }
}

/// The views of a record sequence.
pub open spec fn views_of(v: Seq<GitHistoryEntry>) -> Seq<CommitView> {
    v.map_values(|e: GitHistoryEntry| e@)
}

/// Every record of the sequence is well formed.
pub open spec fn all_wf(v: Seq<GitHistoryEntry>) -> bool {
    forall|i: int| 0 <= i < v.len() ==> v[i].wf()
}

/// What a whole query output means: every line parses as a commit record, in
/// order, or the output is malformed as a whole.
pub open spec fn parse_log_spec(text: Seq<char>) -> Option<Seq<CommitView>> {
    let ls = split_lines(text);
    if forall|i: int| 0 <= i < ls.len() ==> (#[trigger] parse_line_spec(ls[i])) is Some {
        Some(Seq::new(ls.len(), |i: int| parse_line_spec(ls[i])->0))
    } else {
        None
    }
}

/// Parses the full text of the query's output, one commit record per line.
///
/// `None` exactly when some line is malformed; an empty text is an empty
/// history.
pub fn parse_log(text: &str) -> (r: Option<Vec<GitHistoryEntry>>)
    ensures
        r is Some <==> parse_log_spec(text@) is Some,
        r matches Some(v) ==> parse_log_spec(text@) == Some(views_of(v@)) && all_wf(v@),
{
    let n = text.unicode_len();
    let ghost ls = split_lines(text@);
    let mut out: Vec<GitHistoryEntry> = Vec::new();
    let mut pos: usize = 0;
    proof {
        assert(text@.skip(0) =~= text@);
    }
    while pos < n
        invariant
            0 <= pos <= n == text@.len(),
            ls == split_lines(text@),
            out@.len() <= ls.len(),
            forall|i: int|
                0 <= i < out@.len() ==> (#[trigger] parse_line_spec(ls[i])) == Some(out@[i]@)
                    && out@[i].wf(),
            split_lines(text@.skip(pos as int)) =~= ls.skip(out@.len() as int),
        decreases n - pos,
    {
        let ghost done = out@.len() as int;
        let ghost suffix = text@.skip(pos as int);
        // Find the next line break.
        let mut k: usize = pos;
        while k < n && text.get_char(k) != '\n'
            invariant
                pos <= k <= n == text@.len(),
                forall|j: int| pos <= j < k ==> text@[j] != '\n',
            decreases n - k,
        {
            k = k + 1;
        }
        proof {
            assert forall|j: int| 0 <= j < k - pos implies suffix[j] != '\n' by {
                assert(suffix[j] == text@[pos + j]);
            }
            if k < n {
                assert(suffix[k - pos] == text@[k as int]);
            }
            lemma_split_lines_first(suffix, k - pos);
        }
        let end: usize = if k < n && k > pos && text.get_char(k - 1) == '\r' {
            k - 1
        } else {
            k
        };
        let piece = text.substring_char(pos, end);
        proof {
            if k < n {
                assert(piece@ =~= stripped_line(suffix, k - pos)) by {
                    if k > pos && text@[k - 1] == '\r' {
                        assert(suffix[k - pos - 1] == text@[k - 1]);
                        assert(suffix.take(k - pos - 1) =~= text@.subrange(
                            pos as int,
                            k as int - 1,
                        ));
                    } else {
                        if k - pos >= 1 {
                            assert(suffix[k - pos - 1] == text@[k - 1]);
                        }
                        assert(suffix.take(k - pos) =~= text@.subrange(pos as int, k as int));
                    }
                }
                assert(split_lines(suffix) == seq![piece@] + split_lines(suffix.skip(k - pos + 1)));
            } else {
                assert(piece@ =~= suffix);
                assert(split_lines(suffix) == seq![piece@]);
                assert(split_lines(suffix) == seq![piece@] + split_lines(
                    suffix.skip(suffix.len() as int),
                )) by {
                    assert(suffix.skip(suffix.len() as int) =~= Seq::<char>::empty());
                    assert(seq![piece@] + Seq::<Seq<char>>::empty() =~= seq![piece@]);
                }
            }
            assert(ls.skip(done).len() > 0);
            assert(done < ls.len());
            assert(ls.skip(done)[0] == piece@);
            assert(ls[done] == piece@);
        }
        match parse_line(piece) {
            None => {
                proof {
                    assert(parse_line_spec(ls[done]) is None);
                }
                return None;
            },
            Some(e) => {
                out.push(e);
            },
        }
        let next: usize = if k < n {
            k + 1
        } else {
            n
        };
        proof {
            let tail = if k < n {
                suffix.skip(k - pos + 1)
            } else {
                suffix.skip(suffix.len() as int)
            };
            assert(tail =~= text@.skip(next as int)) by {
                if k < n {
                    assert(suffix.skip(k - pos + 1) =~= text@.skip(k + 1));
                } else {
                    assert(suffix.skip(suffix.len() as int) =~= Seq::<char>::empty());
                    assert(text@.skip(n as int) =~= Seq::<char>::empty());
                }
            }
            assert(split_lines(text@.skip(next as int)) =~= ls.skip(done + 1)) by {
                assert(seq![piece@] + split_lines(tail) =~= ls.skip(done));
                assert(ls.skip(done).drop_first() =~= ls.skip(done + 1));
            }
        }
        pos = next;
    }
    proof {
        assert(text@.skip(pos as int) =~= Seq::<char>::empty());
        assert(ls.skip(out@.len() as int) =~= Seq::<Seq<char>>::empty());
        assert(ls.len() == out@.len());
        assert(forall|i: int| 0 <= i < ls.len() ==> (#[trigger] parse_line_spec(ls[i])) is Some);
        assert(parse_log_spec(text@) is Some);
        let entries = parse_log_spec(text@)->0;
        assert(parse_log_spec(text@) == Some(entries));
        assert forall|i: int| 0 <= i < entries.len() implies entries[i] == views_of(out@)[i] by {
            assert(parse_line_spec(ls[i]) == Some(out@[i]@));
        }
        assert(entries =~= views_of(out@));
        assert forall|i: int| 0 <= i < out@.len() implies out@[i].wf() by {
            assert(parse_line_spec(ls[i]) == Some(out@[i]@));
        }
        assert(all_wf(out@));
    }
    Some(out)
}

/// Relies on `str::from_utf8`: it accepts exactly the valid UTF-8 byte
/// sequences and yields their decoded characters.
#[verifier::external_body]
fn bytes_to_string(bytes: &Vec<u8>) -> (r: Option<String>)
    ensures
        r is Some <==> valid_utf8(bytes@),
        r matches Some(s) ==> s@ == decode_utf8(bytes@),
{
    match core::str::from_utf8(bytes.as_slice()) {
        Ok(s) => Some(s.to_string()),
        Err(_) => None,
    }
}

/// What `String::from_utf8_lossy` makes of a byte sequence. The result
/// depends on the bytes alone.
pub uninterp spec fn lossy_utf8(bytes: Seq<u8>) -> Seq<char>;

/// Relies on `String::from_utf8_lossy`: a pure function of the bytes that
/// decodes valid UTF-8 unchanged, replacing invalid sequences with the
/// replacement character.
#[verifier::external_body]
fn bytes_to_string_lossy(bytes: &Vec<u8>) -> (r: String)
    ensures
        r@ == lossy_utf8(bytes@),
        valid_utf8(bytes@) ==> r@ == decode_utf8(bytes@),
{
    String::from_utf8_lossy(bytes.as_slice()).into_owned()
}

/// Turns the captured outcome of the external log query into commit records,
/// newest first.
///
/// A query that exited non-zero is reported as [`ExtractError::QueryFailed`]
/// with its exit code and captured streams, and nothing is parsed. Output
/// that is not valid text, or any line that does not have the record shape,
/// is [`ExtractError::MalformedOutput`]. An empty output is an empty history,
/// not an error.
pub fn extract_from_output(success: bool, code: i32, stdout: Vec<u8>, stderr: Vec<u8>) -> (r:
    Result<Vec<GitHistoryEntry>, ExtractError>)
    ensures
        !success ==> r == Err::<Vec<GitHistoryEntry>, ExtractError>(
            ExtractError::QueryFailed { code, stdout, stderr },
        ),
        success && !valid_utf8(stdout@) ==> r == Err::<Vec<GitHistoryEntry>, ExtractError>(
            ExtractError::MalformedOutput,
        ),
        success && valid_utf8(stdout@) ==> (match parse_log_spec(decode_utf8(stdout@)) {
            None => r == Err::<Vec<GitHistoryEntry>, ExtractError>(ExtractError::MalformedOutput),
            Some(entries) => r matches Ok(v) && views_of(v@) == entries && all_wf(v@),
        }),
{
    if !success {
        return Err(ExtractError::QueryFailed { code, stdout, stderr });
    }
    match bytes_to_string(&stdout) {
        None => Err(ExtractError::MalformedOutput),
        Some(text) => match parse_log(text.as_str()) {
            None => Err(ExtractError::MalformedOutput),
            Some(v) => Ok(v),
        },
    }
}

impl ExtractError {
    /// The diagnostic text for this error.
    pub open spec fn describe_spec(self) -> Seq<char> {
        match self {
            ExtractError::ToolUnavailable => {
                "Failed to launch `git log`. Is git installed and available in $PATH?"@
            },
            ExtractError::QueryFailed { code, stdout, stderr } => {
                "Git log failed. Exit code: "@ + crate::date::signed_digits(code as int)
                    + ".\nSTDOUT: "@ + lossy_utf8(stdout@) + "\nSTDERR: "@ + lossy_utf8(stderr@)
            },
            ExtractError::MalformedOutput => { "Malformed output from `git log`"@ },
        }
    }

    /// Renders the diagnostic text reported for this error.
    pub fn describe(&self) -> (r: String)
        ensures
            r@ == self.describe_spec(),
    {
        match self {
            ExtractError::ToolUnavailable => {
                String::from_str(
                    "Failed to launch `git log`. Is git installed and available in $PATH?",
                )
            },
            ExtractError::QueryFailed { code, stdout, stderr } => {
                let mut out = String::from_str("Git log failed. Exit code: ");
                let rendered_code = crate::date::format_signed(*code);
                out.append(rendered_code.as_str());
                out.append(".\nSTDOUT: ");
                let so = bytes_to_string_lossy(stdout);
                out.append(so.as_str());
                out.append("\nSTDERR: ");
                let se = bytes_to_string_lossy(stderr);
                out.append(se.as_str());
                proof {
                    assert(out@ =~= self.describe_spec());
                }
                out
            },
            ExtractError::MalformedOutput => {
                String::from_str("Malformed output from `git log`")
            },
        }
    }
}

} // verus!
