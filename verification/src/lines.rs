//! Splitting a text into lines, the way `str::lines` does: a line ends at
//! each newline, a line that ended in `"\r\n"` is reported without the
//! carriage return, a final segment without a newline is a line of its own,
//! and a text that ends in a newline has no empty line after it.

use vstd::prelude::*;

verus! {

/// Index of the first newline in `s`, or `s.len()` when `s` has none.
pub open spec fn first_newline(s: Seq<char>) -> nat
    decreases s.len(),
{
    if s.len() == 0 {
        0
    } else if s[0] == '\n' {
        0
    } else {
        (1 + first_newline(s.drop_first())) as nat
    }
}

/// A trailing carriage return is stripped from a segment that ended at a
/// newline, so that `"\r\n"` endings and `"\n"` endings give the same line.
pub open spec fn strip_carriage_return(l: Seq<char>) -> Seq<char> {
    if l.len() > 0 && l[l.len() - 1] == '\r' {
        l.drop_last()
    } else {
        l
    }
}

/// The lines of `s`, oldest first.
pub open spec fn lines_of(s: Seq<char>) -> Seq<Seq<char>>
    decreases s.len(),
{
    if s.len() == 0 {
        Seq::empty()
    } else {
        let i = first_newline(s) as int;
        if i < s.len() {
            seq![strip_carriage_return(s.take(i))] + lines_of(s.skip(i + 1))
        } else {
            seq![s]
        }
    }
}

/// Where the first newline stands: never past the end, a newline when it is
/// within the text, and nothing but other characters before it.
pub proof fn lemma_first_newline(s: Seq<char>)
    ensures
        first_newline(s) <= s.len(),
        first_newline(s) < s.len() ==> s[first_newline(s) as int] == '\n',
        forall|j: int| 0 <= j < first_newline(s) ==> s[j] != '\n',
    decreases s.len(),
{
    if s.len() == 0 {
    } else if s[0] == '\n' {
    } else {
        lemma_first_newline(s.drop_first());
        assert forall|j: int| 0 <= j < first_newline(s) implies s[j] != '\n' by {
            if j > 0 {
                assert(s.drop_first()[j - 1] == s[j]);
            }
        }
    }
}

/// In `t + "\n" + rest`, when `t` holds no newline, the first newline is the
/// one spliced in after `t`.
pub proof fn lemma_first_newline_of_concat(t: Seq<char>, rest: Seq<char>)
    requires
        forall|j: int| 0 <= j < t.len() ==> t[j] != '\n',
    ensures
        first_newline(t + seq!['\n'] + rest) == t.len(),
    decreases t.len(),
{
    let s = t + seq!['\n'] + rest;
    if t.len() == 0 {
        assert(s[0] == '\n');
    } else {
        assert(s[0] == t[0]);
        lemma_first_newline_of_concat(t.drop_first(), rest);
        assert(s.drop_first() =~= t.drop_first() + seq!['\n'] + rest);
    }
}

/// A newline-free segment followed by a newline is the first line of the
/// text, and the lines after it are the lines of what follows the newline.
pub proof fn lemma_lines_of_line(t: Seq<char>, rest: Seq<char>)
    requires
        forall|j: int| 0 <= j < t.len() ==> t[j] != '\n',
    ensures
        lines_of(t + seq!['\n'] + rest) == seq![strip_carriage_return(t)] + lines_of(rest),
{
    let s = t + seq!['\n'] + rest;
    lemma_first_newline_of_concat(t, rest);
    assert(s.take(t.len() as int) =~= t);
    assert(s.skip(t.len() as int + 1) =~= rest);
}

/// A text without a newline is one line (itself), or none when it is empty.
pub proof fn lemma_lines_of_unterminated(t: Seq<char>)
    requires
        forall|j: int| 0 <= j < t.len() ==> t[j] != '\n',
    ensures
        lines_of(t) == if t.len() == 0 {
            Seq::<Seq<char>>::empty()
        } else {
            seq![t]
        },
{
    lemma_first_newline(t);
}

/// A text whose every entry went in through an append ends in a newline.
pub open spec fn terminated(s: Seq<char>) -> bool {
    s.len() == 0 || s[s.len() - 1] == '\n'
}

/// Appending one newline-free entry and a newline to a newline-terminated
/// text adds exactly one line, at the end, and leaves every earlier line as
/// it was.
pub proof fn lemma_lines_of_append(log: Seq<char>, entry: Seq<char>)
    requires
        terminated(log),
        forall|j: int| 0 <= j < entry.len() ==> entry[j] != '\n',
    ensures
        lines_of(log + entry + seq!['\n']) == lines_of(log).push(strip_carriage_return(entry)),
    decreases log.len(),
{
    if log.len() == 0 {
        assert(log + entry + seq!['\n'] =~= entry + seq!['\n'] + Seq::<char>::empty());
        lemma_lines_of_line(entry, Seq::empty());
        assert(seq![strip_carriage_return(entry)] + lines_of(Seq::<char>::empty())
            =~= lines_of(log).push(strip_carriage_return(entry)));
    } else {
        lemma_first_newline(log);
        let i = first_newline(log) as int;
        assert(i < log.len()) by {
            assert(log[log.len() - 1] == '\n');
        }
        let t = log.take(i);
        let rest = log.skip(i + 1);
        assert(log =~= t + seq!['\n'] + rest);
        assert(terminated(rest)) by {
            if rest.len() > 0 {
                assert(rest[rest.len() - 1] == log[log.len() - 1]);
            }
        }
        lemma_lines_of_append(rest, entry);
        lemma_lines_of_line(t, rest);
        lemma_lines_of_line(t, rest + entry + seq!['\n']);
        assert(log + entry + seq!['\n'] =~= t + seq!['\n'] + (rest + entry + seq!['\n']));
        assert(seq![strip_carriage_return(t)] + lines_of(rest).push(strip_carriage_return(entry))
            =~= (seq![strip_carriage_return(t)] + lines_of(rest)).push(
            strip_carriage_return(entry)));
    }
}

/// All lines of `content`, oldest first, exactly as `lines_of` lists them.
pub fn split_lines(content: &str) -> (r: Vec<String>)
    ensures
        r.deep_view() == lines_of(content@),
{
    let len: usize = content.unicode_len();
    let mut r: Vec<String> = Vec::new();
    let mut start: usize = 0;
    let mut i: usize = 0;
    proof {
        assert(r.deep_view() =~= Seq::<Seq<char>>::empty());
        assert(content@.skip(0) =~= content@);
    }
    while i < len
        invariant
            start <= i <= len,
            len == content@.len(),
            forall|j: int| start <= j < i ==> content@[j] != '\n',
            lines_of(content@) == r.deep_view() + lines_of(content@.skip(start as int)),
        decreases len - i,
    {
        let c = content.get_char(i);
        if c == '\n' {
            let end: usize = if i > start && content.get_char(i - 1) == '\r' {
                i - 1
            } else {
                i
            };
            let line = content.substring_char(start, end);
            proof {
                let s = content@;
                let t = s.subrange(start as int, i as int);
                lemma_lines_of_line(t, s.skip(i as int + 1));
                assert(s.skip(start as int) =~= t + seq!['\n'] + s.skip(i as int + 1));
                if i > start && s[i as int - 1] == '\r' {
                    assert(t[t.len() - 1] == '\r');
                    assert(strip_carriage_return(t) =~= line@);
                } else {
                    assert(strip_carriage_return(t) =~= line@);
                }
            }
            let prev = Ghost(r.deep_view());
            r.push(String::from_str(line));
            proof {
                assert(r.deep_view() =~= prev@ + seq![line@]);
                assert(prev@ + (seq![line@] + lines_of(content@.skip(i as int + 1))) =~= (
                prev@ + seq![line@]) + lines_of(content@.skip(i as int + 1)));
            }
            start = i + 1;
        }
        i = i + 1;
    }
    if start < len {
        let line = content.substring_char(start, len);
        proof {
            lemma_lines_of_unterminated(content@.skip(start as int));
            assert(content@.skip(start as int) =~= line@);
        }
        let prev = Ghost(r.deep_view());
        r.push(String::from_str(line));
        proof {
            assert(r.deep_view() =~= prev@ + seq![line@]);
        }
    } else {
        proof {
            assert(content@.skip(start as int) =~= Seq::<char>::empty());
            assert(lines_of(content@) =~= r.deep_view());
        }
    }
    r
}

} // verus!
