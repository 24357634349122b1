//! Reduction of a commit-record sequence to a display summary.
//!
//! The records arrive newest first, so the newest commit is the first element
//! and the oldest is the last. Every record strictly between those two
//! positions is a candidate "other contributor"; candidates whose author is
//! the newest commit's author are dropped, and the rest are deduplicated and
//! kept in ascending lexicographic order.

use vstd::prelude::*;
use vstd::string::*;

use crate::git_history::{views_of, CommitView, GitHistoryEntry};

verus! {

/// Strict lexicographic order on character sequences, by scalar value.
///
/// On UTF-8 encoded text this agrees with the byte-wise order of the encoded
/// strings, since UTF-8 preserves scalar order.
pub open spec fn lex_lt(a: Seq<char>, b: Seq<char>) -> bool
    decreases a.len(),
{
    if b.len() == 0 {
        false
    } else if a.len() == 0 {
        true
    } else if (a[0] as u32) < (b[0] as u32) {
        true
    } else if (a[0] as u32) > (b[0] as u32) {
        false
    } else {
        lex_lt(a.drop_first(), b.drop_first())
    }
}

/// The order is irreflexive.
pub proof fn lemma_lex_lt_irreflexive(a: Seq<char>)
    ensures
        !lex_lt(a, a),
    decreases a.len(),
{
    if a.len() > 0 {
        lemma_lex_lt_irreflexive(a.drop_first());
    }
}

/// Two sequences neither of which is below the other are equal.
pub proof fn lemma_lex_lt_connected(a: Seq<char>, b: Seq<char>)
    requires
        !lex_lt(a, b),
        !lex_lt(b, a),
    ensures
        a == b,
    decreases a.len(),
{
    if a.len() == 0 || b.len() == 0 {
        assert(a =~= b);
    } else {
        lemma_lex_lt_connected(a.drop_first(), b.drop_first());
        assert(a =~= b) by {
            vstd::utf8::char_u32_cast(a[0], a[0] as u32);
            vstd::utf8::char_u32_cast(b[0], b[0] as u32);
            assert(a[0] == b[0]);
            assert(a.drop_first() =~= b.drop_first());
            assert forall|i: int| 0 <= i < a.len() implies a[i] == b[i] by {
                if i > 0 {
                    assert(a.drop_first()[i - 1] == b.drop_first()[i - 1]);
                }
            }
        }
    }
}

/// The order is transitive.
pub proof fn lemma_lex_lt_transitive(a: Seq<char>, b: Seq<char>, c: Seq<char>)
    requires
        lex_lt(a, b),
        lex_lt(b, c),
    ensures
        lex_lt(a, c),
    decreases a.len(),
{
    if a.len() > 0 && b.len() > 0 && c.len() > 0 {
        if (a[0] as u32) == (b[0] as u32) && (b[0] as u32) == (c[0] as u32) {
            lemma_lex_lt_transitive(a.drop_first(), b.drop_first(), c.drop_first());
        }
    }
}

/// Ascending, duplicate-free order.
pub open spec fn strictly_sorted(s: Seq<Seq<char>>) -> bool {
    forall|i: int, j: int| 0 <= i < j < s.len() ==> lex_lt(s[i], s[j])
}

/// `x` placed at its position in the ascending sequence `s`; `s` unchanged
/// when it already holds `x`.
pub open spec fn insert_name(s: Seq<Seq<char>>, x: Seq<char>) -> Seq<Seq<char>>
    decreases s.len(),
{
    if s.len() == 0 {
        seq![x]
    } else if x == s[0] {
        s
    } else if lex_lt(x, s[0]) {
        seq![x] + s
    } else {
        seq![s[0]] + insert_name(s.drop_first(), x)
    }
}

/// Inserting keeps the ascending order and adds exactly `x` to the members.
pub proof fn lemma_insert_name(s: Seq<Seq<char>>, x: Seq<char>)
    requires
        strictly_sorted(s),
    ensures
        strictly_sorted(insert_name(s, x)),
        forall|y: Seq<char>| #[trigger] insert_name(s, x).contains(y) <==> (s.contains(y) || y
            == x),
    decreases s.len(),
{
    let r = insert_name(s, x);
    if s.len() == 0 {
        assert forall|y: Seq<char>| #[trigger] r.contains(y) implies (s.contains(y) || y == x) by {
            let i = choose|i: int| 0 <= i < r.len() && r[i] == y;
        }
        assert(r.contains(x)) by {
            assert(r[0] == x);
        }
    } else if x == s[0] {
        assert(s.contains(x)) by {
            assert(s[0] == x);
        }
    } else if lex_lt(x, s[0]) {
        assert forall|i: int, j: int| 0 <= i < j < r.len() implies lex_lt(r[i], r[j]) by {
            if i == 0 {
                assert(r[j] == s[j - 1]);
                if j > 1 {
                    lemma_lex_lt_transitive(x, s[0], s[j - 1]);
                }
            } else {
                assert(r[i] == s[i - 1] && r[j] == s[j - 1]);
            }
        }
        assert forall|y: Seq<char>| #[trigger] r.contains(y) implies (s.contains(y) || y == x) by {
            let i = choose|i: int| 0 <= i < r.len() && r[i] == y;
            if i > 0 {
                assert(s[i - 1] == y);
            }
        }
        assert forall|y: Seq<char>| s.contains(y) || y == x implies #[trigger] r.contains(y) by {
            if s.contains(y) {
                let i = choose|i: int| 0 <= i < s.len() && s[i] == y;
                assert(r[i + 1] == y);
            } else {
                assert(r[0] == y);
            }
        }
    } else {
        let d = s.drop_first();
        assert forall|i: int, j: int| 0 <= i < j < d.len() implies lex_lt(d[i], d[j]) by {
            assert(d[i] == s[i + 1] && d[j] == s[j + 1]);
        }
        lemma_insert_name(d, x);
        let rd = insert_name(d, x);
        if !lex_lt(s[0], x) {
            lemma_lex_lt_connected(x, s[0]);
            assert(false);
        }
        assert(lex_lt(s[0], x));
        assert forall|i: int, j: int| 0 <= i < j < r.len() implies lex_lt(r[i], r[j]) by {
            if i == 0 {
                assert(r[j] == rd[j - 1]);
                assert(rd.contains(rd[j - 1]));
                if d.contains(rd[j - 1]) {
                    let k = choose|k: int| 0 <= k < d.len() && d[k] == rd[j - 1];
                    assert(d[k] == s[k + 1]);
                    assert(lex_lt(s[0], s[k + 1]));
                } else {
                    assert(rd[j - 1] == x);
                }
            } else {
                assert(r[i] == rd[i - 1] && r[j] == rd[j - 1]);
            }
        }
        assert forall|y: Seq<char>| #[trigger] r.contains(y) implies (s.contains(y) || y == x) by {
            let i = choose|i: int| 0 <= i < r.len() && r[i] == y;
            if i == 0 {
                assert(s[0] == y);
            } else {
                assert(rd[i - 1] == y);
                assert(rd.contains(y));
                if d.contains(y) {
                    let k = choose|k: int| 0 <= k < d.len() && d[k] == y;
                    assert(s[k + 1] == y);
                }
            }
        }
        assert forall|y: Seq<char>| s.contains(y) || y == x implies #[trigger] r.contains(y) by {
            if s.contains(y) {
                let i = choose|i: int| 0 <= i < s.len() && s[i] == y;
                if i == 0 {
                    assert(r[0] == y);
                } else {
                    assert(d[i - 1] == y);
                    assert(d.contains(y));
                    assert(rd.contains(y));
                    let k = choose|k: int| 0 <= k < rd.len() && rd[k] == y;
                    assert(r[k + 1] == y);
                }
            } else {
                assert(rd.contains(y));
                let k = choose|k: int| 0 <= k < rd.len() && rd[k] == y;
                assert(r[k + 1] == y);
            }
        }
    }
}

/// The candidate names folded into an ascending, duplicate-free sequence,
/// with every name equal to `excl` dropped.
pub open spec fn build_others(names: Seq<Seq<char>>, excl: Seq<char>) -> Seq<Seq<char>>
    decreases names.len(),
{
    if names.len() == 0 {
        Seq::empty()
    } else {
        let prev = build_others(names.drop_last(), excl);
        if names.last() == excl {
            prev
        } else {
            insert_name(prev, names.last())
        }
    }
}

/// The fold is ascending and duplicate-free, and holds exactly the names
/// other than `excl`.
pub proof fn lemma_build_others(names: Seq<Seq<char>>, excl: Seq<char>)
    ensures
        strictly_sorted(build_others(names, excl)),
        forall|y: Seq<char>| #[trigger] build_others(names, excl).contains(y) <==> (names.contains(
            y,
        ) && y != excl),
    decreases names.len(),
{
    let r = build_others(names, excl);
    if names.len() == 0 {
        assert forall|y: Seq<char>| !(#[trigger] r.contains(y)) by {
            if r.contains(y) {
                let i = choose|i: int| 0 <= i < r.len() && r[i] == y;
            }
        }
        assert forall|y: Seq<char>| !(#[trigger] names.contains(y)) by {
            if names.contains(y) {
                let i = choose|i: int| 0 <= i < names.len() && names[i] == y;
            }
        }
    } else {
        let d = names.drop_last();
        lemma_build_others(d, excl);
        let prev = build_others(d, excl);
        if names.last() != excl {
            lemma_insert_name(prev, names.last());
        }
        assert forall|y: Seq<char>| #[trigger] r.contains(y) implies (names.contains(y) && y
            != excl) by {
            if prev.contains(y) {
                assert(d.contains(y));
                let i = choose|i: int| 0 <= i < d.len() && d[i] == y;
                assert(names[i] == y);
            } else {
                assert(y == names.last());
                assert(names[names.len() - 1] == y);
            }
        }
        assert forall|y: Seq<char>| names.contains(y) && y != excl implies #[trigger] r.contains(
            y,
        ) by {
            let i = choose|i: int| 0 <= i < names.len() && names[i] == y;
            if i < names.len() - 1 {
                assert(d[i] == y);
                assert(d.contains(y));
            }
        }
    }
}

/// The authors of the records, in order.
pub open spec fn authors_of(h: Seq<CommitView>) -> Seq<Seq<char>> {
    h.map_values(|c: CommitView| c.author)
}

/// The authors eligible as other contributors: every position strictly
/// between the newest and the oldest record.
pub open spec fn candidate_authors(h: Seq<CommitView>) -> Seq<Seq<char>> {
    if h.len() <= 2 {
        Seq::empty()
    } else {
        authors_of(h.subrange(1, h.len() - 1))
    }
}

/// The other contributors of a history: the candidate authors, less the
/// newest commit's author, deduplicated and in ascending order.
pub open spec fn other_contributors_spec(h: Seq<CommitView>) -> Seq<Seq<char>> {
    build_others(
        candidate_authors(h),
        if h.len() > 0 {
            h[0].author
        } else {
            Seq::empty()
        },
    )
}

/// The mathematical content of a [`HistorySummary`].
pub struct SummaryView {
    pub first_commit: Option<CommitView>,
    pub last_commit: Option<CommitView>,
    pub other_contributors: Seq<Seq<char>>,
}

/// What the reduction of a history yields.
pub open spec fn aggregate_spec(h: Seq<CommitView>) -> SummaryView {
    SummaryView {
        first_commit: if h.len() == 0 {
            None
        } else {
            Some(h.last())
        },
        last_commit: if h.len() == 0 {
            None
        } else {
            Some(h[0])
        },
        other_contributors: other_contributors_spec(h),
    }
}

/// The derived, ephemeral summary of one file's history, rebuilt on every
/// request and consumed immediately by rendering.
pub struct HistorySummary {
    pub first_commit: Option<GitHistoryEntry>,
    pub last_commit: Option<GitHistoryEntry>,
    pub other_contributors: Vec<String>,
}

/// The views of a name list.
pub open spec fn names_of(v: Seq<String>) -> Seq<Seq<char>> {
    v.map_values(|s: String| s@)
}

impl View for HistorySummary {
    type V = SummaryView;

    open spec fn view(&self) -> SummaryView {
        SummaryView {
            first_commit: match self.first_commit {
                None => None,
                Some(e) => Some(e@),
            },
            last_commit: match self.last_commit {
                None => None,
                Some(e) => Some(e@),
            },
            other_contributors: names_of(self.other_contributors@),
        }
    }
}

/// Whether `a` comes strictly before `b` in lexicographic order.
fn str_lt(a: &str, b: &str) -> (r: bool)
    ensures
        r == lex_lt(a@, b@),
{
    let an = a.unicode_len();
    let bn = b.unicode_len();
    let mut i: usize = 0;
    proof {
        assert(a@.skip(0) =~= a@);
        assert(b@.skip(0) =~= b@);
    }
    while i < an && i < bn
        invariant
            0 <= i <= an == a@.len(),
            i <= bn == b@.len(),
            lex_lt(a@, b@) == lex_lt(a@.skip(i as int), b@.skip(i as int)),
        decreases an - i,
    {
        let ca = a.get_char(i);
        let cb = b.get_char(i);
        proof {
            assert(a@.skip(i as int)[0] == a@[i as int]);
            assert(b@.skip(i as int)[0] == b@[i as int]);
        }
        if (ca as u32) < (cb as u32) {
            return true;
        }
        if (ca as u32) > (cb as u32) {
            return false;
        }
        proof {
            assert(a@.skip(i as int).drop_first() =~= a@.skip(i as int + 1));
            assert(b@.skip(i as int).drop_first() =~= b@.skip(i as int + 1));
        }
        i = i + 1;
    }
    proof {
        if i >= an {
            assert(a@.skip(i as int) =~= Seq::<char>::empty());
        } else {
            assert(b@.skip(i as int) =~= Seq::<char>::empty());
        }
    }
    i < bn
}

/// Places `name` at its position in the ascending, duplicate-free list,
/// leaving the list unchanged when the name is already there.
fn insert_contributor(list: &mut Vec<String>, name: &String)
    ensures
        names_of(final(list)@) == insert_name(names_of(old(list)@), name@),
{
    let ghost ns = names_of(old(list)@);
    let ghost x = name@;
    let mut idx: usize = 0;
    proof {
        assert(ns.take(0) =~= Seq::<Seq<char>>::empty());
        assert(ns.skip(0) =~= ns);
        assert(ns.take(0) + insert_name(ns.skip(0), x) =~= insert_name(ns, x));
    }
    while idx < list.len()
        invariant
            0 <= idx <= list@.len(),
            x == name@,
            ns == names_of(old(list)@),
            ns == names_of(list@),
            insert_name(ns, x) == ns.take(idx as int) + insert_name(ns.skip(idx as int), x),
        decreases list@.len() - idx,
    {
        proof {
            assert(ns.len() == list@.len());
            assert(ns.skip(idx as int)[0] == ns[idx as int]);
            assert(ns[idx as int] == list@[idx as int]@);
        }
        let is_same = list[idx].eq(name);
        proof {
            assert(is_same == (list@[idx as int]@ == name@));
        }
        if is_same {
            // Already present: the list is left as it is.
            proof {
                assert(ns.skip(idx as int).len() > 0);
                assert(x == ns.skip(idx as int)[0]);
                assert(insert_name(ns.skip(idx as int), x) == ns.skip(idx as int));
                assert(ns.take(idx as int) + ns.skip(idx as int) =~= ns);
            }
            return ;
        }
        if str_lt(name.as_str(), list[idx].as_str()) {
            proof {
                assert(insert_name(ns.skip(idx as int), x) == seq![x] + ns.skip(idx as int));
                assert(ns.take(idx as int) + (seq![x] + ns.skip(idx as int)) =~= ns.insert(
                    idx as int,
                    x,
                ));
            }
            list.insert(idx, name.clone());
            proof {
                assert(names_of(list@) =~= ns.insert(idx as int, x));
            }
            return ;
        }
        proof {
            assert(insert_name(ns.skip(idx as int), x) == seq![ns[idx as int]] + insert_name(
                ns.skip(idx as int).drop_first(),
                x,
            ));
            assert(ns.skip(idx as int).drop_first() =~= ns.skip(idx as int + 1));
            assert(ns.take(idx as int) + (seq![ns[idx as int]] + insert_name(
                ns.skip(idx as int + 1),
                x,
            )) =~= ns.take(idx as int + 1) + insert_name(ns.skip(idx as int + 1), x));
        }
        idx = idx + 1;
    }
    proof {
        assert(ns.skip(idx as int) =~= Seq::<Seq<char>>::empty());
        assert(insert_name(ns.skip(idx as int), x) == seq![x]);
        assert(ns.take(idx as int) =~= ns);
    }
    list.push(name.clone());
    proof {
        assert(names_of(list@) =~= ns + seq![x]);
        assert(ns + seq![x] =~= insert_name(ns, x));
    }
}

/// Reduces a history, newest record first, to its display summary.
///
/// The newest record becomes the last commit, the oldest the first commit,
/// and the authors strictly between them — less the newest commit's author —
/// become the other contributors, deduplicated and in ascending order.
pub fn aggregate(history: &Vec<GitHistoryEntry>) -> (r: HistorySummary)
    ensures
        r@ == aggregate_spec(views_of(history@)),
{
    let ghost h = views_of(history@);
    let last_commit = if history.len() > 0 {
        Some(history[0].clone())
    } else {
        None
    };
    let first_commit = if history.len() > 0 {
        Some(history[history.len() - 1].clone())
    } else {
        None
    };
    let mut others: Vec<String> = Vec::new();
    if history.len() > 2 {
        let ghost cands = candidate_authors(h);
        let ghost excl = h[0].author;
        proof {
            assert(cands.len() == h.len() - 2);
            assert forall|j: int| 0 <= j < cands.len() implies cands[j] == h[j + 1].author by {
                assert(h.subrange(1, h.len() - 1)[j] == h[j + 1]);
            }
            assert(cands.take(0) =~= Seq::<Seq<char>>::empty());
            assert(names_of(others@) =~= Seq::<Seq<char>>::empty());
        }
        let mut i: usize = 1;
        while i < history.len() - 1
            invariant
                1 <= i <= history@.len() - 1,
                history@.len() > 2,
                h == views_of(history@),
                cands == candidate_authors(h),
                excl == h[0].author,
                cands.len() == h.len() - 2,
                forall|j: int| 0 <= j < cands.len() ==> cands[j] == h[j + 1].author,
                names_of(others@) == build_others(cands.take(i - 1), excl),
            decreases history@.len() - i,
        {
            let ghost before = names_of(others@);
            if !history[i].author.eq(&history[0].author) {
                insert_contributor(&mut others, &history[i].author);
            }
            proof {
                assert(cands.take(i as int).drop_last() =~= cands.take(i - 1));
                assert(cands.take(i as int).last() == cands[i - 1]);
                assert(cands[i - 1] == h[i as int].author);
                assert(h[i as int].author == history@[i as int].author@);
                assert(h[0].author == history@[0].author@);
                assert(build_others(cands.take(i as int), excl) == (if cands[i - 1] == excl {
                    before
                } else {
                    insert_name(before, cands[i - 1])
                }));
            }
            i = i + 1;
        }
        proof {
            assert(cands.take(i - 1) =~= cands);
        }
    } else {
        proof {
            assert(candidate_authors(h).len() == 0);
            assert(other_contributors_spec(h) == Seq::<Seq<char>>::empty());
            assert(names_of(others@) =~= Seq::<Seq<char>>::empty());
        }
    }
    let r = HistorySummary { first_commit, last_commit, other_contributors: others };
    proof {
        if history@.len() > 0 {
            assert(h[0] == history@[0]@);
            assert(h.last() == history@[history@.len() - 1]@);
        }
        assert(r@.other_contributors == aggregate_spec(h).other_contributors);
    }
    r
}

/// For every non-empty history, the summary's last commit is the newest
/// record (the first element) and its first commit is the oldest (the last
/// element).
pub proof fn lemma_summary_endpoints(h: Seq<CommitView>)
    requires
        h.len() > 0,
    ensures
        aggregate_spec(h).last_commit == Some(h[0]),
        aggregate_spec(h).first_commit == Some(h.last()),
{
}

/// A history of at most two commits has no other contributors.
pub proof fn lemma_short_history_no_others(h: Seq<CommitView>)
    requires
        h.len() <= 2,
    ensures
        aggregate_spec(h).other_contributors == Seq::<Seq<char>>::empty(),
{
}

/// The other contributors are in strictly ascending lexicographic order, so
/// the list is also free of duplicates, whatever the input order or
/// duplication among the candidates.
pub proof fn lemma_others_sorted(h: Seq<CommitView>)
    ensures
        strictly_sorted(aggregate_spec(h).other_contributors),
{
    lemma_build_others(
        candidate_authors(h),
        if h.len() > 0 {
            h[0].author
        } else {
            Seq::empty()
        },
    );
}

/// The other contributors are exactly the authors found strictly between the
/// newest and the oldest record, less the newest commit's author. In
/// particular the newest commit's author is never among them.
pub proof fn lemma_others_membership(h: Seq<CommitView>)
    requires
        h.len() > 0,
    ensures
        forall|y: Seq<char>| #[trigger] aggregate_spec(h).other_contributors.contains(y) <==> ((
        exists|i: int| 1 <= i < h.len() - 1 && h[i].author == y) && y != h[0].author),
{
    let cands = candidate_authors(h);
    lemma_build_others(cands, h[0].author);
    assert forall|y: Seq<char>| #[trigger] cands.contains(y) <==> (exists|i: int|
        1 <= i < h.len() - 1 && h[i].author == y) by {
        if h.len() > 2 {
            if cands.contains(y) {
                let j = choose|j: int| 0 <= j < cands.len() && cands[j] == y;
                assert(h.subrange(1, h.len() - 1)[j] == h[j + 1]);
                assert(h[j + 1].author == y);
            }
            if exists|i: int| 1 <= i < h.len() - 1 && h[i].author == y {
                let i = choose|i: int| 1 <= i < h.len() - 1 && h[i].author == y;
                assert(h.subrange(1, h.len() - 1)[i - 1] == h[i]);
                assert(cands[i - 1] == y);
            }
        } else {
            if cands.contains(y) {
                let j = choose|j: int| 0 <= j < cands.len() && cands[j] == y;
            }
        }
    }
}

/// The newest commit's author is never an other contributor, even where that
/// author also appears among the older records.
pub proof fn lemma_others_exclude_last_author(h: Seq<CommitView>)
    requires
        h.len() > 0,
    ensures
        !aggregate_spec(h).other_contributors.contains(h[0].author),
{
    lemma_others_membership(h);
}

} // verus!
