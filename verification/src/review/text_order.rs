//! The order of reviewable diff identifiers, as -1, 0 or 1: by file path,
//! then query, then start line, then end line.

use vstd::prelude::*;

use crate::review::git_ref::{DiffQuery, DiffQueryView, GitRef, GitRefView};
use crate::review::reviewable_diff_id::{ReviewableDiffId, ReviewableDiffIdView};

verus! {

/// Lexicographic order of character sequences, as -1, 0 or 1.
pub open spec fn text_order(a: Seq<char>, b: Seq<char>) -> int
    decreases a.len(),
{
    if a.len() == 0 {
        if b.len() == 0 {
            0
        } else {
            -1
        }
    } else if b.len() == 0 {
        1
    } else if a[0] < b[0] {
        -1
    } else if a[0] > b[0] {
        1
    } else {
        text_order(a.drop_first(), b.drop_first())
    }
}

/// Position of a state kind: commits, HEAD, staged, unstaged.
pub open spec fn git_ref_rank(r: GitRefView) -> int {
    match r {
        GitRefView::Commit(_) => 0,
        GitRefView::Head => 1,
        GitRefView::Staged => 2,
        GitRefView::Unstaged => 3,
    }
}

/// Order of Git states: by kind, commits by name.
pub open spec fn git_ref_order(a: GitRefView, b: GitRefView) -> int {
    match (a, b) {
        (GitRefView::Commit(x), GitRefView::Commit(y)) => text_order(x, y),
        _ => if git_ref_rank(a) < git_ref_rank(b) {
            -1
        } else if git_ref_rank(a) > git_ref_rank(b) {
            1
        } else {
            0
        },
    }
}

/// Order of queries: by the state compared from, then the one compared to.
pub open spec fn query_order(a: DiffQueryView, b: DiffQueryView) -> int {
    let f = git_ref_order(a.from, b.from);
    if f != 0 {
        f
    } else {
        git_ref_order(a.to, b.to)
    }
}

/// Order of numbers, as -1, 0 or 1.
pub open spec fn num_order(a: usize, b: usize) -> int {
    if a < b {
        -1
    } else if a > b {
        1
    } else {
        0
    }
}

/// Order of identifiers: by file path, then query, then start line, then
/// end line.
pub open spec fn id_order(a: ReviewableDiffIdView, b: ReviewableDiffIdView) -> int {
    let f = text_order(a.file_path, b.file_path);
    let q = query_order(a.query, b.query);
    let s = num_order(a.line_range.start_line, b.line_range.start_line);
    if f != 0 {
        f
    } else if q != 0 {
        q
    } else if s != 0 {
        s
    } else {
        num_order(a.line_range.end_line, b.line_range.end_line)
    }
}

/// The order of two sequences is -1, 0 or 1.
pub proof fn lemma_text_order_range(a: Seq<char>, b: Seq<char>)
    ensures
        -1 <= text_order(a, b) <= 1,
    decreases a.len(),
{
    if a.len() > 0 && b.len() > 0 && a[0] == b[0] {
        lemma_text_order_range(a.drop_first(), b.drop_first());
    }
}

/// Swapping the sequences negates their order; order 0 means equal.
pub proof fn lemma_text_order_antisym(a: Seq<char>, b: Seq<char>)
    ensures
        text_order(a, b) == -text_order(b, a),
        text_order(a, b) == 0 ==> a == b,
    decreases a.len(),
{
    if a.len() > 0 && b.len() > 0 && a[0] == b[0] {
        lemma_text_order_antisym(a.drop_first(), b.drop_first());
        if text_order(a, b) == 0 {
            assert(a =~= seq![a[0]] + a.drop_first());
            assert(b =~= seq![b[0]] + b.drop_first());
        }
    } else if a.len() == 0 && b.len() == 0 {
        assert(a =~= b);
    }
}

/// Swapping the states negates their order; order 0 means equal.
pub proof fn lemma_git_ref_order_antisym(a: GitRefView, b: GitRefView)
    ensures
        git_ref_order(a, b) == -git_ref_order(b, a),
        git_ref_order(a, b) == 0 ==> a == b,
{
    match (a, b) {
        (GitRefView::Commit(x), GitRefView::Commit(y)) => lemma_text_order_antisym(x, y),
        _ => {},
    }
}

/// Swapping the identifiers negates their order; order 0 means that they
/// agree on every field the order reads.
pub proof fn lemma_id_order_antisym(a: ReviewableDiffIdView, b: ReviewableDiffIdView)
    ensures
        id_order(a, b) == -id_order(b, a),
        id_order(a, b) == 0 ==> {
            &&& a.file_path == b.file_path
            &&& a.query == b.query
            &&& a.line_range.start_line == b.line_range.start_line
            &&& a.line_range.end_line == b.line_range.end_line
        },
{
    lemma_text_order_antisym(a.file_path, b.file_path);
    lemma_git_ref_order_antisym(a.query.from, b.query.from);
    lemma_git_ref_order_antisym(a.query.to, b.query.to);
}

/// The order of sequences is transitive.
pub proof fn lemma_text_order_trans(a: Seq<char>, b: Seq<char>, c: Seq<char>)
    requires
        text_order(a, b) == -1,
        text_order(b, c) == -1,
    ensures
        text_order(a, c) == -1,
    decreases a.len(),
{
    if a.len() > 0 && b.len() > 0 && c.len() > 0 && a[0] == b[0] && b[0] == c[0] {
        lemma_text_order_trans(a.drop_first(), b.drop_first(), c.drop_first());
    }
}

/// The order of Git states is transitive.
pub proof fn lemma_git_ref_order_trans(a: GitRefView, b: GitRefView, c: GitRefView)
    requires
        git_ref_order(a, b) == -1,
        git_ref_order(b, c) == -1,
    ensures
        git_ref_order(a, c) == -1,
{
    match (a, b, c) {
        (GitRefView::Commit(x), GitRefView::Commit(y), GitRefView::Commit(z)) => {
            lemma_text_order_trans(x, y, z);
        },
        _ => {},
    }
}

/// The order of identifiers is transitive.
pub proof fn lemma_id_order_trans(a: ReviewableDiffIdView, b: ReviewableDiffIdView, c: ReviewableDiffIdView)
    requires
        id_order(a, b) == -1,
        id_order(b, c) == -1,
    ensures
        id_order(a, c) == -1,
{
    lemma_id_order_antisym(a, b);
    lemma_id_order_antisym(b, c);
    lemma_id_order_antisym(a, c);
    lemma_text_order_antisym(a.file_path, b.file_path);
    lemma_text_order_antisym(b.file_path, c.file_path);
    lemma_text_order_antisym(a.file_path, c.file_path);
    lemma_text_order_range(a.file_path, b.file_path);
    lemma_text_order_range(b.file_path, c.file_path);
    if text_order(a.file_path, b.file_path) == -1 && text_order(b.file_path, c.file_path) == -1 {
        lemma_text_order_trans(a.file_path, b.file_path, c.file_path);
    }
    lemma_git_ref_order_antisym(a.query.from, b.query.from);
    lemma_git_ref_order_antisym(b.query.from, c.query.from);
    lemma_git_ref_order_antisym(a.query.from, c.query.from);
    lemma_git_ref_order_antisym(a.query.to, b.query.to);
    lemma_git_ref_order_antisym(b.query.to, c.query.to);
    lemma_git_ref_order_antisym(a.query.to, c.query.to);
    if git_ref_order(a.query.from, b.query.from) == -1 && git_ref_order(b.query.from, c.query.from)
        == -1 {
        lemma_git_ref_order_trans(a.query.from, b.query.from, c.query.from);
    }
    if git_ref_order(a.query.to, b.query.to) == -1 && git_ref_order(b.query.to, c.query.to) == -1 {
        lemma_git_ref_order_trans(a.query.to, b.query.to, c.query.to);
    }
}

/// Compares two strings character by character: -1, 0 or 1.
pub fn compare_text(a: &str, b: &str) -> (o: i8)
    ensures
        o == text_order(a@, b@),
{
    let n = a.unicode_len();
    let m = b.unicode_len();
    let mut i: usize = 0;
    assert(a@.skip(0) =~= a@);
    assert(b@.skip(0) =~= b@);
    while i < n && i < m
        invariant
            n == a@.len(),
            m == b@.len(),
            i <= n,
            i <= m,
            text_order(a@, b@) == text_order(a@.skip(i as int), b@.skip(i as int)),
        decreases n - i,
    {
        let x = a.get_char(i);
        let y = b.get_char(i);
        assert(a@.skip(i as int)[0] == x && b@.skip(i as int)[0] == y);
        if x < y {
            return -1;
        }
        if x > y {
            return 1;
        }
        assert(a@.skip(i as int).drop_first() =~= a@.skip(i + 1));
        assert(b@.skip(i as int).drop_first() =~= b@.skip(i + 1));
        i = i + 1;
    }
    if i < n {
        1
    } else if i < m {
        -1
    } else {
        0
    }
}

/// Whether two strings are equal.
pub fn same_text(a: &str, b: &str) -> (r: bool)
    ensures
        r == (a@ == b@),
{
    proof {
        lemma_text_order_antisym(a@, b@);
        lemma_text_order_range(a@, a@);
        if a@ == b@ {
            lemma_text_order_refl(a@);
        }
    }
    compare_text(a, b) == 0
}

/// A sequence is in order 0 with itself.
pub proof fn lemma_text_order_refl(a: Seq<char>)
    ensures
        text_order(a, a) == 0,
    decreases a.len(),
{
    if a.len() > 0 {
        lemma_text_order_refl(a.drop_first());
    }
}

/// Compares two numbers: -1, 0 or 1.
pub fn compare_num(a: usize, b: usize) -> (o: i8)
    ensures
        o == num_order(a, b),
{
    if a < b {
        -1
    } else if a > b {
        1
    } else {
        0
    }
}

fn git_ref_rank_of(r: &GitRef) -> (k: u8)
    ensures
        k == git_ref_rank(r@),
{
    match r {
        GitRef::Commit(_) => 0,
        GitRef::Head => 1,
        GitRef::Staged => 2,
        GitRef::Unstaged => 3,
    }
}

/// Compares two Git states: -1, 0 or 1.
pub fn compare_git_ref(a: &GitRef, b: &GitRef) -> (o: i8)
    ensures
        o == git_ref_order(a@, b@),
{
    match (a, b) {
        (GitRef::Commit(x), GitRef::Commit(y)) => {
            proof {
                lemma_text_order_range(x@, y@);
            }
            compare_text(x.as_str(), y.as_str())
        },
        _ => {
            let ra = git_ref_rank_of(a);
            let rb = git_ref_rank_of(b);
            if ra < rb {
                -1
            } else if ra > rb {
                1
            } else {
                0
            }
        },
    }
}

/// Compares two queries: -1, 0 or 1.
pub fn compare_query(a: &DiffQuery, b: &DiffQuery) -> (o: i8)
    ensures
        o == query_order(a@, b@),
{
    let f = compare_git_ref(&a.from, &b.from);
    if f != 0 {
        f
    } else {
        compare_git_ref(&a.to, &b.to)
    }
}

/// The order of two identifiers is -1, 0 or 1.
pub proof fn lemma_id_order_range(a: ReviewableDiffIdView, b: ReviewableDiffIdView)
    ensures
        -1 <= id_order(a, b) <= 1,
{
    lemma_text_order_range(a.file_path, b.file_path);
    match (a.query.from, b.query.from) {
        (GitRefView::Commit(x), GitRefView::Commit(y)) => lemma_text_order_range(x, y),
        _ => {},
    }
    match (a.query.to, b.query.to) {
        (GitRefView::Commit(x), GitRefView::Commit(y)) => lemma_text_order_range(x, y),
        _ => {},
    }
}

/// Compares two identifiers: -1, 0 or 1, by file path, then query, then
/// start line, then end line.
pub fn compare_ids(a: &ReviewableDiffId, b: &ReviewableDiffId) -> (o: i8)
    ensures
        o == id_order(a@, b@),
{
    let f = compare_text(a.file_path.as_str(), b.file_path.as_str());
    if f != 0 {
        return f;
    }
    let q = compare_query(&a.query, &b.query);
    if q != 0 {
        return q;
    }
    let s = compare_num(a.line_range.start_line, b.line_range.start_line);
    if s != 0 {
        return s;
    }
    compare_num(a.line_range.end_line, b.line_range.end_line)
}

} // verus!
