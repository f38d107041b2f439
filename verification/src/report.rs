//! The part of the summary that lists the status codes.

use crate::stats::{
    lemma_sum_of_part, StatsView, WorkerStats, FIRST_FAILURE, FIRST_SUCCESS, STATUS_SLOTS,
};
use crate::text::{decimal, decimal_text};
use vstd::prelude::*;
use vstd::string::*;

verus! {

/// The line for `count` requests with the status code `code`.
pub open spec fn status_line_text(code: int, count: int) -> Seq<char> {
    if code == 0 {
        "  [Network Error]:     "@ + decimal(count as nat)
    } else {
        "  [HTTP "@ + decimal(code as nat) + "]:           "@ + decimal(count as nat)
    }
}

/// The lines for the first `end` status codes: one for each code that was counted, in
/// ascending order.
pub open spec fn status_lines_text(counts: Seq<int>, end: int) -> Seq<Seq<char>>
    decreases end,
{
    if end <= 0 {
        Seq::empty()
    } else if counts[end - 1] > 0 {
        status_lines_text(counts, end - 1).push(status_line_text(end - 1, counts[end - 1]))
    } else {
        status_lines_text(counts, end - 1)
    }
}

/// The lines for all the status codes.
pub open spec fn listed_codes(stats: StatsView) -> Seq<Seq<char>> {
    status_lines_text(stats.status_codes, stats.status_codes.len() as int)
}

/// A line gives the code, or that there was no response, and the count, both in decimal.
pub proof fn law_line_gives_code_and_count(code: nat, count: nat)
    ensures
        status_line_text(0, count as int) == "  [Network Error]:     "@ + decimal(count),
        code > 0 ==> status_line_text(code as int, count as int) == "  [HTTP "@ + decimal(code)
            + "]:           "@ + decimal(count),
{
}

/// There is one line for each code that was counted, with its count, in the order of the
/// codes, and no other line.
pub proof fn law_one_line_for_each_code(counts: Seq<int>, end: int) -> (codes: Seq<int>)
    requires
        0 <= end <= counts.len(),
    ensures
        codes.len() == status_lines_text(counts, end).len(),
        forall|i: int|
            #![trigger codes[i]]
            0 <= i < codes.len() ==> {
                &&& 0 <= codes[i] < end
                &&& counts[codes[i]] > 0
                &&& status_lines_text(counts, end)[i] == status_line_text(
                    codes[i],
                    counts[codes[i]],
                )
            },
        forall|i: int, j: int| 0 <= i < j < codes.len() ==> codes[i] < codes[j],
        forall|code: int|
            0 <= code < end && #[trigger] counts[code] > 0 ==> codes.contains(code),
    decreases end,
{
    if end <= 0 {
        Seq::empty()
    } else {
        let front = law_one_line_for_each_code(counts, end - 1);
        if counts[end - 1] > 0 {
            let codes = front.push(end - 1);
            assert forall|code: int| 0 <= code < end && #[trigger] counts[code] > 0 implies codes.contains(
            code) by {
                if code < end - 1 {
                    assert(front.contains(code));
                    let i = choose|i: int| 0 <= i < front.len() && front[i] == code;
                    assert(codes[i] == code);
                } else {
                    assert(codes[codes.len() - 1] == code);
                }
            }
            codes
        } else {
            front
        }
    }
}

/// The line for `count` requests with the status code `code`.
pub fn status_line(code: usize, count: u64) -> (line: String)
    ensures
        line@ == status_line_text(code as int, count as int),
{
    if code == 0 {
        let mut line = String::from_str("  [Network Error]:     ");
        line.append(decimal_text(count).as_str());
        line
    } else {
        let mut line = String::from_str("  [HTTP ");
        line.append(decimal_text(code as u64).as_str());
        line.append("]:           ");
        line.append(decimal_text(count).as_str());
        line
    }
}

/// The lines for the status codes that were counted, in ascending order.
pub fn status_lines(stats: &WorkerStats) -> (lines: Vec<String>)
    ensures
        lines@.map_values(|line: String| line@) == status_lines_text(
            stats@.status_codes,
            STATUS_SLOTS as int,
        ),
        lines@.map_values(|line: String| line@) == listed_codes(stats@),
{
    let mut lines: Vec<String> = Vec::new();
    let mut code: usize = 0;
    assert(lines@.map_values(|line: String| line@) =~= Seq::empty());
    while code < STATUS_SLOTS
        invariant
            code <= STATUS_SLOTS,
            lines@.map_values(|line: String| line@) == status_lines_text(
                stats@.status_codes,
                code as int,
            ),
        decreases STATUS_SLOTS - code,
    {
        let count = stats.status_codes[code];
        assert(stats@.status_codes[code as int] == count);
        let ghost before = lines@;
        if count > 0 {
            let line = status_line(code, count);
            lines.push(line);
            assert(lines@.map_values(|line: String| line@) =~= before.map_values(
                |line: String| line@,
            ).push(line@));
        }
        code += 1;
    }
    lines
}

/// How many requests were not successful.
pub fn failed_requests(stats: &WorkerStats) -> (failed: u64)
    requires
        stats.wf(),
    ensures
        failed == stats@.total_requests - stats@.successful_requests,
{
    proof {
        lemma_sum_of_part(
            stats@.status_codes,
            FIRST_SUCCESS as int,
            FIRST_FAILURE as int,
            STATUS_SLOTS as int,
        );
    }
    stats.total_requests - stats.successful_requests
}

} // verus!
