use vstd::prelude::*;
use crate::text::push_char;

verus! {

/// A durable row is written on every this-many-th sample.
pub const CADENCE: u64 = 60;

/// The header line of a log file.
pub const HEADER: &'static str = "timestamp,cpu,memory,disk,top5_processes";

/// Whether the sample with this iteration counter is written to the log.
pub open spec fn writes_at(counter: nat, cadence: nat) -> bool {
    counter % cadence == 0
}

/// Whether the sample with this iteration counter is written to the log.
pub fn should_write(counter: u64, cadence: u64) -> (r: bool)
    requires
        cadence > 0,
    ensures
        r == writes_at(counter as nat, cadence as nat),
{
    counter % cadence == 0
}

/// In every run of `cadence` consecutive iterations exactly one writes a row.
pub proof fn lemma_one_row_per_window(start: nat, cadence: nat)
    requires
        cadence > 0,
    ensures
        exists|k: nat| start <= k < start + cadence && #[trigger] writes_at(k, cadence),
        forall|j: nat, k: nat|
            start <= j < start + cadence && start <= k < start + cadence && #[trigger] writes_at(
                j,
                cadence,
            ) && #[trigger] writes_at(k, cadence) ==> j == k,
{
    let r = start % cadence;
    let k: nat = if r == 0 {
        start
    } else {
        (start + (cadence - r)) as nat
    };
    assert(start == (start / cadence) * cadence + r) by (nonlinear_arith)
        requires
            cadence > 0,
            r == start % cadence,
    ;
    if r != 0 {
        assert(k == (start / cadence + 1) * cadence) by (nonlinear_arith)
            requires
                start == (start / cadence) * cadence + r,
                k == start + (cadence - r),
        ;
        assert(k % cadence == 0) by (nonlinear_arith)
            requires
                k == (start / cadence + 1) * cadence,
                cadence > 0,
        ;
    }
    assert(writes_at(k, cadence));
    assert forall|j: nat, k: nat|
        start <= j < start + cadence && start <= k < start + cadence && #[trigger] writes_at(
            j,
            cadence,
        ) && #[trigger] writes_at(k, cadence) implies j == k by {
        let a = j / cadence;
        let b = k / cadence;
        assert(j == a * cadence && k == b * cadence) by (nonlinear_arith)
            requires
                j % cadence == 0,
                k % cadence == 0,
                cadence > 0,
                a == j / cadence,
                b == k / cadence,
        ;
        assert(a == b) by (nonlinear_arith)
            requires
                j == a * cadence,
                k == b * cadence,
                j < k + cadence,
                k < j + cadence,
                cadence > 0,
        ;
    }
}

pub open spec fn header_line() -> Seq<char> {
    HEADER@.push('\n')
}

/// What is appended to a log file that currently holds `content` to record a
/// row: the header first when the file is empty, then the row and a line break.
pub open spec fn appended(content: Seq<char>, row: Seq<char>) -> Seq<char> {
    if content.len() == 0 {
        header_line() + row.push('\n')
    } else {
        content + row.push('\n')
    }
}

/// The file after recording each of `rows` in order.
pub open spec fn appended_all(content: Seq<char>, rows: Seq<Seq<char>>) -> Seq<char>
    decreases rows.len(),
{
    if rows.len() == 0 {
        content
    } else {
        appended(appended_all(content, rows.drop_last()), rows.last())
    }
}

/// The rows as lines, one after the other.
pub open spec fn lines(rows: Seq<Seq<char>>) -> Seq<char>
    decreases rows.len(),
{
    if rows.len() == 0 {
        Seq::empty()
    } else {
        lines(rows.drop_last()) + rows.last().push('\n')
    }
}

/// Recording rows one by one puts the header in a file exactly once, at its
/// start, when the file was empty, and never when it already held something.
pub proof fn lemma_header_once(content: Seq<char>, rows: Seq<Seq<char>>)
    ensures
        content.len() > 0 ==> appended_all(content, rows) == content + lines(rows),
        content.len() == 0 && rows.len() > 0 ==> appended_all(content, rows) == header_line()
            + lines(rows),
    decreases rows.len(),
{
    if rows.len() > 0 {
        let p = rows.drop_last();
        lemma_header_once(content, p);
        if content.len() > 0 {
            assert(appended_all(content, p).len() > 0);
            assert(appended_all(content, rows) =~= content + lines(rows));
        } else if p.len() == 0 {
            assert(appended_all(content, p) == content);
            assert(lines(p) =~= Seq::<char>::empty());
            assert(appended_all(content, rows) =~= header_line() + lines(rows));
        } else {
            assert(header_line().len() > 0);
            assert(appended_all(content, rows) =~= header_line() + lines(rows));
        }
    }
}

/// The text to append to a log file whose current length is `file_len` to
/// record `row`: preceded by the header exactly when the file is empty.
pub fn append_text(file_len: u64, row: &String) -> (r: String)
    ensures
        file_len == 0 ==> r@ == header_line() + row@.push('\n'),
        file_len != 0 ==> r@ == row@.push('\n'),
{
    let mut s: String;
    if file_len == 0 {
        s = HEADER.to_owned();
        push_char(&mut s, '\n');
        s.append(row.as_str());
    } else {
        s = row.clone();
    }
    push_char(&mut s, '\n');
    proof {
        if file_len == 0 {
            assert(s@ =~= header_line() + row@.push('\n'));
        }
    }
    s
}

} // verus!
