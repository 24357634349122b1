//! Rendering of a history summary as a Markdown table fragment.
//!
//! The fragment is a pure template with five substitution points: creation
//! date and author, last-edit date and author, and the other contributors.
//! An absent commit renders as `n/a`; the contributors render joined by a
//! line-break marker, an empty set as an empty cell. Rendering is total: it
//! never fails, whatever the summary holds.

use vstd::prelude::*;
use vstd::string::*;

use crate::date::date_digits;
use crate::git_history::{views_of, CommitView, GitHistoryEntry};
use crate::summary::{aggregate, aggregate_spec, names_of, HistorySummary, SummaryView};

verus! {

/// A date cell: the commit's date, or `n/a` for an absent commit.
pub open spec fn date_cell(c: Option<CommitView>) -> Seq<char> {
    match c {
        None => "n/a"@,
        Some(cv) => date_digits(cv.timestamp),
    }
}

/// An author cell: the commit's author, or `n/a` for an absent commit.
pub open spec fn author_cell(c: Option<CommitView>) -> Seq<char> {
    match c {
        None => "n/a"@,
        Some(cv) => cv.author,
    }
}

/// The names joined by the `<br>` line-break marker; empty for no names.
pub open spec fn joined_names(names: Seq<Seq<char>>) -> Seq<char>
    decreases names.len(),
{
    if names.len() == 0 {
        Seq::empty()
    } else if names.len() == 1 {
        names[0]
    } else {
        names[0] + "<br>"@ + joined_names(names.drop_first())
    }
}

/// The whole fragment: fixed spacing and divider markup, the fixed table
/// header and separator, then the single data row.
pub open spec fn render_spec(s: SummaryView) -> Seq<char> {
    "\n\n<br>\n\n---\n\n<br>\n\n| Created on | Created by | Last edit on | Last edit by | Other contributors |\n| :---: | :---: | :---: | :---: | --- |\n| **"@
        + date_cell(s.first_commit) + "** | **"@ + author_cell(s.first_commit) + "** | **"@
        + date_cell(s.last_commit) + "** | **"@ + author_cell(s.last_commit) + "** | "@
        + joined_names(s.other_contributors) + " |\n"@
}

/// Appends the date cell for an optional commit.
fn append_date_cell(out: &mut String, c: &Option<GitHistoryEntry>)
    ensures
        final(out)@ == old(out)@ + date_cell(
            match *c {
                None => None,
                Some(e) => Some(e@),
            },
        ),
{
    match c {
        None => out.append("n/a"),
        Some(e) => {
            let d = e.timestamp.format();
            out.append(d.as_str());
        },
    }
}

/// Appends the author cell for an optional commit.
fn append_author_cell(out: &mut String, c: &Option<GitHistoryEntry>)
    ensures
        final(out)@ == old(out)@ + author_cell(
            match *c {
                None => None,
                Some(e) => Some(e@),
            },
        ),
{
    match c {
        None => out.append("n/a"),
        Some(e) => out.append(e.author.as_str()),
    }
}

/// Appends the names joined by the line-break marker.
fn append_joined(out: &mut String, names: &Vec<String>)
    ensures
        final(out)@ == old(out)@ + joined_names(names_of(names@)),
{
    let ghost ns = names_of(names@);
    let ghost start = out@;
    let mut i: usize = 0;
    while i < names.len()
        invariant
            0 <= i <= names@.len(),
            ns == names_of(names@),
            ns.len() == names@.len(),
            i == 0 ==> out@ == start,
            0 < i < ns.len() ==> start + joined_names(ns) == out@ + ("<br>"@ + joined_names(
                ns.skip(i as int),
            )),
            i == ns.len() && i > 0 ==> out@ == start + joined_names(ns),
        decreases names@.len() - i,
    {
        proof {
            assert(ns[i as int] == names@[i as int]@);
            assert(ns.skip(i as int)[0] == ns[i as int]);
            assert(ns.skip(i as int).len() == ns.len() - i);
            assert(ns.skip(i as int).drop_first() =~= ns.skip(i as int + 1));
        }
        if i > 0 {
            out.append("<br>");
        }
        out.append(names[i].as_str());
        proof {
            if i == 0 {
                assert(ns.skip(0) =~= ns);
                if ns.len() > 1 {
                    assert(joined_names(ns) == ns[0] + "<br>"@ + joined_names(ns.skip(1)));
                    assert(start + joined_names(ns) =~= out@ + ("<br>"@ + joined_names(
                        ns.skip(1),
                    )));
                } else {
                    assert(joined_names(ns) == ns[0]);
                }
            } else {
                let rest = ns.skip(i as int);
                if rest.len() > 1 {
                    assert(joined_names(rest) == rest[0] + "<br>"@ + joined_names(
                        rest.drop_first(),
                    ));
                    assert(start + joined_names(ns) =~= out@ + ("<br>"@ + joined_names(
                        ns.skip(i as int + 1),
                    )));
                } else {
                    assert(joined_names(rest) == rest[0]);
                    assert(out@ =~= start + joined_names(ns));
                }
            }
        }
        i = i + 1;
    }
    proof {
        if ns.len() == 0 {
            assert(joined_names(ns) == Seq::<char>::empty());
            assert(out@ =~= start + joined_names(ns));
        }
    }
}

/// Renders the summary as the fixed five-column Markdown table fragment.
pub fn render_fragment(summary: &HistorySummary) -> (r: String)
    ensures
        r@ == render_spec(summary@),
{
    let mut out = String::from_str(
        "\n\n<br>\n\n---\n\n<br>\n\n| Created on | Created by | Last edit on | Last edit by | Other contributors |\n| :---: | :---: | :---: | :---: | --- |\n| **",
    );
    append_date_cell(&mut out, &summary.first_commit);
    out.append("** | **");
    append_author_cell(&mut out, &summary.first_commit);
    out.append("** | **");
    append_date_cell(&mut out, &summary.last_commit);
    out.append("** | **");
    append_author_cell(&mut out, &summary.last_commit);
    out.append("** | ");
    append_joined(&mut out, &summary.other_contributors);
    out.append(" |\n");
    proof {
        assert(out@ =~= render_spec(summary@));
    }
    out
}

/// Appends the rendered history fragment for the given records, newest
/// first, to a chapter's content.
pub fn enrich_content(content: &mut String, history: &Vec<GitHistoryEntry>)
    ensures
        final(content)@ == old(content)@ + render_spec(aggregate_spec(views_of(history@))),
{
    let summary = aggregate(history);
    let fragment = render_fragment(&summary);
    content.append(fragment.as_str());
}

} // verus!
