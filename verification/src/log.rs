//! The two operations of the operator log, on the file's contents as a value.

use vstd::prelude::*;

use crate::lines::lines_of;
use crate::lines::split_lines;
use crate::lines::strip_carriage_return;
use crate::lines::terminated;
use crate::lines::lemma_lines_of_append;

verus! {

/// The contents of the log after one entry is appended: the old contents,
/// the entry, and a terminating newline.
pub open spec fn appended(log: Seq<char>, entry: Seq<char>) -> Seq<char> {
    log + entry + seq!['\n']
}

/// The text that one append writes at the end of the log file: the entry
/// followed by a single newline.
pub fn render_entry(entry: &str) -> (r: String)
    ensures
        r@ == entry@.push('\n'),
{
    let mut r = String::from_str(entry);
    r.append("\n");
    proof {
        reveal_strlit("\n");
        assert(r@ =~= entry@.push('\n'));
    }
    r
}

/// The new contents of the log after appending `entry` to contents `log`.
pub fn append_content(log: &str, entry: &str) -> (r: String)
    ensures
        r@ == appended(log@, entry@),
{
    let mut r = String::from_str(log);
    r.append(entry);
    r.append("\n");
    proof {
        reveal_strlit("\n");
        assert(r@ =~= appended(log@, entry@));
    }
    r
}

/// The last `n` of `lines`, newest first: the reversed list of lines, cut
/// to `n` when there are more than `n`.
pub open spec fn tail_of(lines: Seq<Seq<char>>, n: int) -> Seq<Seq<char>> {
    lines.reverse().take(
        if n <= lines.len() {
            n
        } else {
            lines.len() as int
        },
    )
}

/// What a tail-read of `n` lines returns for file contents `content`.
pub open spec fn tail_view(content: Seq<char>, n: int) -> Seq<Seq<char>> {
    tail_of(lines_of(content), n)
}

/// The last `n` lines of `content`, newest first; all of them when there are
/// fewer than `n`, none when `n` is zero.
pub fn tail_lines(content: &str, n: usize) -> (r: Vec<String>)
    ensures
        r.deep_view() == tail_view(content@, n as int),
{
    let all = split_lines(content);
    let m: usize = all.len();
    let k: usize = if n < m {
        n
    } else {
        m
    };
    let mut r: Vec<String> = Vec::new();
    let mut j: usize = 0;
    proof {
        assert(r.deep_view() =~= all.deep_view().reverse().take(0));
    }
    while j < k
        invariant
            j <= k <= m,
            m == all@.len(),
            all.deep_view() == lines_of(content@),
            k as int == if n as int <= m as int {
                n as int
            } else {
                m as int
            },
            r.deep_view() == all.deep_view().reverse().take(j as int),
        decreases k - j,
    {
        let prev = Ghost(r.deep_view());
        r.push(all[m - 1 - j].clone());
        proof {
            let rev = all.deep_view().reverse();
            assert(rev[j as int] == all.deep_view()[m - 1 - j]);
            assert(r.deep_view() =~= prev@ + seq![all@[m - 1 - j as int].deep_view()]);
            assert(rev.take(j as int + 1) =~= rev.take(j as int) + seq![rev[j as int]]);
        }
        j = j + 1;
    }
    proof {
        assert(r.deep_view() =~= tail_view(content@, n as int));
    }
    r
}

/// The tail-read on the outcome of reading the log file: the last `n` lines
/// of the contents when the read succeeded, the read's own error otherwise.
/// A missing file is an error from the read, never an empty tail.
pub fn tail_outcome(read: Result<String, String>, n: usize) -> (r: Result<Vec<String>, String>)
    ensures
        read is Ok ==> r is Ok && r->Ok_0.deep_view() == tail_view(read->Ok_0@, n as int),
        read is Err ==> r is Err && r->Err_0 == read->Err_0,
{
    match read {
        Ok(content) => Ok(tail_lines(content.as_str(), n)),
        Err(message) => Err(message),
    }
}

/// Law: appends accumulate. Appending `e1` and then `e2` leaves the old
/// contents followed by each entry with its own newline.
pub proof fn lemma_append_cumulative(log: Seq<char>, e1: Seq<char>, e2: Seq<char>)
    ensures
        appended(appended(log, e1), e2) == log + e1 + seq!['\n'] + e2 + seq!['\n'],
{
    assert(appended(appended(log, e1), e2) =~= log + e1 + seq!['\n'] + e2 + seq!['\n']);
}

/// Law: the tail is newest first. It holds `n` lines (all of them when the
/// log holds fewer), and its entry `i` is the line written `i + 1` from the
/// end.
pub proof fn lemma_tail_newest_first(lines: Seq<Seq<char>>, n: int)
    requires
        0 <= n,
    ensures
        tail_of(lines, n).len() == if n <= lines.len() {
            n
        } else {
            lines.len() as int
        },
        forall|i: int|
            0 <= i < tail_of(lines, n).len() ==> tail_of(lines, n)[i] == lines[lines.len() - 1
                - i],
{
}

/// Law: asking for at least as many lines as the log holds returns every
/// line, newest first, with no error.
pub proof fn lemma_tail_over_request(lines: Seq<Seq<char>>, n: int)
    requires
        lines.len() <= n,
    ensures
        tail_of(lines, n) == lines.reverse(),
{
    assert(tail_of(lines, n) =~= lines.reverse());
}

/// Law: a tail of zero lines is empty, whatever the log holds.
pub proof fn lemma_tail_zero(lines: Seq<Seq<char>>)
    ensures
        tail_of(lines, 0) == Seq::<Seq<char>>::empty(),
{
    assert(tail_of(lines, 0) =~= Seq::<Seq<char>>::empty());
}

/// Law: a tail-read is a function of the file contents and the requested
/// count alone, and changes neither, so two reads with no append between
/// them return the same lines.
pub proof fn lemma_tail_read_idempotent(
    content: Seq<char>,
    n: int,
    r1: Seq<Seq<char>>,
    r2: Seq<Seq<char>>,
)
    requires
        r1 == tail_view(content, n),
        r2 == tail_view(content, n),
    ensures
        r1 == r2,
{
}

/// Law: after an append, a tail-read of at least one line sees the new entry
/// first. The log stays newline-terminated, it holds one more line than
/// before, and the newest line is the entry (less a trailing carriage
/// return, which a read strips).
pub proof fn lemma_append_then_tail(log: Seq<char>, entry: Seq<char>, n: int)
    requires
        terminated(log),
        forall|j: int| 0 <= j < entry.len() ==> entry[j] != '\n',
        1 <= n,
    ensures
        terminated(appended(log, entry)),
        lines_of(appended(log, entry)).len() == lines_of(log).len() + 1,
        tail_view(appended(log, entry), n)[0] == strip_carriage_return(entry),
{
    assert(appended(log, entry) =~= log + entry + seq!['\n']);
    lemma_lines_of_append(log, entry);
    let all = lines_of(appended(log, entry));
    lemma_tail_newest_first(all, n);
    assert(tail_of(all, n)[0] == all[all.len() - 1]);
}

} // verus!
