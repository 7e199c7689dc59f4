//! The per-function results of an analysis run and what is derived from
//! them: the oracle check's verdict and messages, the CSV lines, the ranking
//! by treewidth, the summary statistics and the printed distribution.

use vstd::prelude::*;
use crate::stats::{describes, sum_counts, Accumulator, Summary};
use crate::text::{chars_of, decimal, push_char, push_decimal, string_of};

verus! {

/// The result for one function.
pub struct Row {
    pub name: String,
    pub krate: String,
    pub blocks: usize,
    pub edges: usize,
    pub stmt_count: usize,
    pub treewidth: u32,
    /// The oracle's treewidth, when it was asked and answered.
    pub oracle_treewidth: Option<u32>,
    /// The oracle's error, when it was asked and failed.
    pub oracle_error: Option<String>,
    pub is_unsafe: bool,
}

/// The texts of a sequence of strings.
pub open spec fn texts(v: Seq<String>) -> Seq<Seq<char>> {
    v.map_values(|s: String| s@)
}

/// The oracle gave `r` a treewidth other than the computed one.
pub open spec fn mismatched(r: Row) -> bool {
    r.oracle_treewidth is Some && r.oracle_treewidth->0 != r.treewidth
}

/// The report of a row whose treewidth differs from the oracle's.
pub open spec fn mismatch_line(r: Row) -> Seq<char> {
    r.name@ + ": native="@ + decimal(r.treewidth as nat) + " oracle="@ + decimal(r.oracle_treewidth->0 as nat)
}

/// The mismatch reports of `rows`, in order.
pub open spec fn mismatch_lines(rows: Seq<Row>) -> Seq<Seq<char>>
    decreases rows.len(),
{
    if rows.len() == 0 {
        Seq::empty()
    } else if mismatched(rows.last()) {
        mismatch_lines(rows.drop_last()).push(mismatch_line(rows.last()))
    } else {
        mismatch_lines(rows.drop_last())
    }
}

/// The report of a row that the oracle could not check.
pub open spec fn error_line(r: Row) -> Seq<char> {
    r.name@ + ": "@ + r.oracle_error->0@
}

/// The reports of the rows that the oracle could not check, in order.
pub open spec fn error_lines(rows: Seq<Row>) -> Seq<Seq<char>>
    decreases rows.len(),
{
    if rows.len() == 0 {
        Seq::empty()
    } else if rows.last().oracle_error is Some {
        error_lines(rows.drop_last()).push(error_line(rows.last()))
    } else {
        error_lines(rows.drop_last())
    }
}

/// The report of one mismatch: the name, the computed treewidth and the
/// oracle's.
fn mismatch_message(r: &Row) -> (m: String)
    requires
        mismatched(*r),
    ensures
        m@ == mismatch_line(*r),
{
    let oracle = match r.oracle_treewidth {
        Some(o) => o,
        None => 0,
    };
    let mut m = string_of(r.name.as_str());
    m.append(": native=");
    push_decimal(&mut m, r.treewidth as u64);
    m.append(" oracle=");
    push_decimal(&mut m, oracle as u64);
    m
}

/// The rows on which the oracle disagrees with the computed treewidth, each
/// reported as `name: native=<treewidth> oracle=<oracle's treewidth>`.
pub fn collect_oracle_mismatches(rows: &Vec<Row>) -> (lines: Vec<String>)
    ensures
        texts(lines@) == mismatch_lines(rows@),
{
    let mut lines: Vec<String> = Vec::new();
    let mut i: usize = 0;
    while i < rows.len()
        invariant
            i <= rows@.len(),
            texts(lines@) == mismatch_lines(rows@.take(i as int)),
        decreases rows@.len() - i,
    {
        let r = &rows[i];
        let ghost before = lines@;
        proof {
            assert(rows@.take(i + 1).drop_last() == rows@.take(i as int));
            assert(rows@.take(i + 1).last() == rows@[i as int]);
        }
        let is_mismatch = match r.oracle_treewidth {
            Some(o) => o != r.treewidth,
            None => false,
        };
        if is_mismatch {
            let m = mismatch_message(r);
            lines.push(m);
            proof {
                assert(texts(lines@) =~= texts(before).push(m@));
            }
        }
        i += 1;
    }
    assert(rows@.take(rows@.len() as int) == rows@);
    lines
}

/// The rows that the oracle could not check, each reported as
/// `name: <error>`.
pub fn collect_oracle_errors(rows: &Vec<Row>) -> (lines: Vec<String>)
    ensures
        texts(lines@) == error_lines(rows@),
{
    let mut lines: Vec<String> = Vec::new();
    let mut i: usize = 0;
    while i < rows.len()
        invariant
            i <= rows@.len(),
            texts(lines@) == error_lines(rows@.take(i as int)),
        decreases rows@.len() - i,
    {
        let r = &rows[i];
        let ghost before = lines@;
        proof {
            assert(rows@.take(i + 1).drop_last() == rows@.take(i as int));
            assert(rows@.take(i + 1).last() == rows@[i as int]);
        }
        match &r.oracle_error {
            Some(err) => {
                let mut m = string_of(r.name.as_str());
                m.append(": ");
                m.append(err.as_str());
                lines.push(m);
                proof {
                    assert(texts(lines@) =~= texts(before).push(m@));
                }
            },
            None => {},
        }
        i += 1;
    }
    assert(rows@.take(rows@.len() as int) == rows@);
    lines
}

/// The outcome of cross-checking the computed treewidths with the oracle.
pub enum OracleVerdict {
    /// Every row was checked and agrees.
    Passed,
    /// Some rows could not be checked; their reports, in order.
    Unchecked(Vec<String>),
    /// Every row was checked and some disagree; their reports, in order.
    Mismatched(Vec<String>),
}

/// Decides the oracle check: rows that could not be checked fail it first;
/// otherwise rows that disagree fail it; otherwise it passes.
pub fn oracle_verdict(rows: &Vec<Row>) -> (v: OracleVerdict)
    ensures
        error_lines(rows@).len() > 0 ==> (v matches OracleVerdict::Unchecked(lines) && texts(lines@)
            == error_lines(rows@)),
        error_lines(rows@).len() == 0 && mismatch_lines(rows@).len() > 0 ==> (v matches OracleVerdict::Mismatched(
            lines,
        ) && texts(lines@) == mismatch_lines(rows@)),
        error_lines(rows@).len() == 0 && mismatch_lines(rows@).len() == 0 ==> v is Passed,
{
    let errors = collect_oracle_errors(rows);
    if errors.len() > 0 {
        return OracleVerdict::Unchecked(errors);
    }
    let mismatches = collect_oracle_mismatches(rows);
    if mismatches.len() > 0 {
        return OracleVerdict::Mismatched(mismatches);
    }
    OracleVerdict::Passed
}

/// `s` with every double quote doubled, as inside a quoted CSV field.
pub open spec fn csv_escaped(s: Seq<char>) -> Seq<char>
    decreases s.len(),
{
    if s.len() == 0 {
        Seq::empty()
    } else if s.last() == '"' {
        csv_escaped(s.drop_last()) + seq!['"', '"']
    } else {
        csv_escaped(s.drop_last()).push(s.last())
    }
}

/// The CSV record of a row: the quoted name, the crate, the block count, the
/// edge count, the statement count, the treewidth and 1 or 0 for unsafe.
pub open spec fn csv_record(r: Row) -> Seq<char> {
    "\""@ + csv_escaped(r.name@) + "\","@ + r.krate@ + ","@ + decimal(r.blocks as nat) + ","@ + decimal(
        r.edges as nat,
    ) + ","@ + decimal(r.stmt_count as nat) + ","@ + decimal(r.treewidth as nat) + ","@ + (if r.is_unsafe {
        "1"@
    } else {
        "0"@
    })
}

/// The CSV record of `r`, without a line break.
pub fn csv_line(r: &Row) -> (line: String)
    ensures
        line@ == csv_record(*r),
{
    let mut line = string_of("\"");
    let name = chars_of(r.name.as_str());
    let mut i: usize = 0;
    while i < name.len()
        invariant
            i <= name@.len(),
            name@ == r.name@,
            line@ == "\""@ + csv_escaped(name@.take(i as int)),
        decreases name@.len() - i,
    {
        let c = name[i];
        proof {
            assert(name@.take(i + 1).drop_last() == name@.take(i as int));
            assert(name@.take(i + 1).last() == c);
        }
        if c == '"' {
            push_char(&mut line, '"');
            push_char(&mut line, '"');
            assert(line@ == "\""@ + csv_escaped(name@.take(i + 1)));
        } else {
            push_char(&mut line, c);
            assert(line@ == "\""@ + csv_escaped(name@.take(i + 1)));
        }
        i += 1;
    }
    assert(name@.take(name@.len() as int) == name@);
    line.append("\",");
    line.append(r.krate.as_str());
    line.append(",");
    push_decimal(&mut line, r.blocks as u64);
    line.append(",");
    push_decimal(&mut line, r.edges as u64);
    line.append(",");
    push_decimal(&mut line, r.stmt_count as u64);
    line.append(",");
    push_decimal(&mut line, r.treewidth as u64);
    line.append(",");
    if r.is_unsafe {
        line.append("1");
    } else {
        line.append("0");
    }
    line
}

/// Row `i` comes before row `j` when the rows are ordered by decreasing
/// treewidth, rows of equal treewidth keeping their order.
pub open spec fn ranks_before(rows: Seq<Row>, i: int, j: int) -> bool {
    rows[i].treewidth > rows[j].treewidth || (rows[i].treewidth == rows[j].treewidth && i < j)
}

/// `top` holds the first `n` row indices (all of them, if there are fewer)
/// in the order of decreasing treewidth, rows of equal treewidth keeping
/// their order.
pub open spec fn is_top(rows: Seq<Row>, n: nat, top: Seq<usize>) -> bool {
    &&& top.len() == (if n <= rows.len() {
        n
    } else {
        rows.len()
    })
    &&& forall|a: int| 0 <= a < top.len() ==> (#[trigger] top[a]) < rows.len()
    &&& forall|a: int, b: int|
        0 <= a < b < top.len() ==> ranks_before(rows, #[trigger] top[a] as int, #[trigger] top[b] as int)
    &&& forall|a: int, x: int|
        0 <= a < top.len() && 0 <= x < rows.len() && !top.contains(x as usize) ==> #[trigger] ranks_before(
            rows,
            top[a] as int,
            x,
        )
}

/// The indices of the `n` rows of largest treewidth, largest first, rows of
/// equal treewidth in their order.
pub fn top_rows(rows: &Vec<Row>, n: usize) -> (top: Vec<usize>)
    ensures
        is_top(rows@, n as nat, top@),
{
    let len = rows.len();
    let want = if n <= len { n } else { len };
    let mut chosen: Vec<bool> = Vec::new();
    let mut k: usize = 0;
    while k < len
        invariant
            len == rows@.len(),
            k <= len,
            chosen@.len() == k,
            forall|x: int| 0 <= x < k ==> !(#[trigger] chosen@[x]),
        decreases len - k,
    {
        chosen.push(false);
        k += 1;
    }
    let mut top: Vec<usize> = Vec::new();
    while top.len() < want
        invariant
            len == rows@.len(),
            want <= len,
            want == (if n <= len { n } else { len }),
            top@.len() <= want,
            chosen@.len() == len,
            forall|x: int| 0 <= x < len ==> (#[trigger] chosen@[x] <==> top@.contains(x as usize)),
            forall|a: int| 0 <= a < top@.len() ==> (#[trigger] top@[a]) < len,
            forall|a: int, b: int|
                0 <= a < b < top@.len() ==> ranks_before(rows@, #[trigger] top@[a] as int, #[trigger] top@[b] as int),
            forall|a: int, x: int|
                #![trigger top@[a], chosen@[x]]
                0 <= a < top@.len() && 0 <= x < len && !chosen@[x] ==> ranks_before(rows@, top@[a] as int, x),
        decreases want - top@.len(),
    {
        let mut found = false;
        let mut best: usize = 0;
        let mut i: usize = 0;
        while i < len
            invariant
                len == rows@.len(),
                chosen@.len() == len,
                i <= len,
                found ==> best < i && !chosen@[best as int],
                found ==> forall|x: int| 0 <= x < i && !chosen@[x] && x != best ==> ranks_before(rows@, best as int, x),
                !found ==> forall|x: int| 0 <= x < i ==> #[trigger] chosen@[x],
            decreases len - i,
        {
            if !chosen[i] {
                if !found || rows[i].treewidth > rows[best].treewidth {
                    best = i;
                    found = true;
                }
            }
            i += 1;
        }
        proof {
            if !found {
                assert(top@.no_duplicates()) by {
                    assert forall|a: int, b: int| 0 <= a < top@.len() && 0 <= b < top@.len() && a != b implies top@[a]
                        != top@[b] by {
                        if a < b {
                            assert(ranks_before(rows@, top@[a] as int, top@[b] as int));
                        } else {
                            assert(ranks_before(rows@, top@[b] as int, top@[a] as int));
                        }
                    }
                }
                assert(crate::seq_lemmas::all_below(top@, len as nat));
                assert forall|u: usize| u < len as nat implies top@.contains(u) by {
                    assert(chosen@[u as int]);
                }
                crate::seq_lemmas::lemma_covering_means_long(top@, len as nat);
            }
        }
        let ghost before = top@;
        top.push(best);
        chosen.set(best, true);
        proof {
            assert(top@[top@.len() - 1] == best);
            assert forall|x: int| 0 <= x < len implies (#[trigger] chosen@[x] <==> top@.contains(x as usize)) by {
                if before.contains(x as usize) {
                    let j = choose|j: int| 0 <= j < before.len() && before[j] == x as usize;
                    assert(top@[j] == x as usize);
                }
                if top@.contains(x as usize) && x != best as int {
                    let j = choose|j: int| 0 <= j < top@.len() && top@[j] == x as usize;
                    assert(j < before.len());
                    assert(before[j] == x as usize);
                }
            }
            assert forall|a: int, b: int|
                0 <= a < b < top@.len() implies ranks_before(rows@, #[trigger] top@[a] as int, #[trigger] top@[b] as int) by {
                if b < before.len() {
                    assert(before[a] == top@[a] && before[b] == top@[b]);
                } else {
                    assert(before[a] == top@[a]);
                }
            }
            assert forall|a: int, x: int|
                #![trigger top@[a], chosen@[x]]
                0 <= a < top@.len() && 0 <= x < len && !chosen@[x] implies ranks_before(rows@, top@[a] as int, x) by {
                if a < before.len() {
                    assert(before[a] == top@[a]);
                }
            }
        }
    }
    proof {
        assert forall|a: int, x: int|
            0 <= a < top@.len() && 0 <= x < rows@.len() && !top@.contains(x as usize) implies #[trigger] ranks_before(
                rows@,
                top@[a] as int,
                x,
            ) by {
            assert(!chosen@[x]);
        }
    }
    top
}

/// The treewidths of `rows`, in order.
pub open spec fn treewidths(rows: Seq<Row>) -> Seq<u32> {
    rows.map_values(|r: Row| r.treewidth)
}

/// The treewidths of the rows of unsafe functions (`of_unsafe`) or of safe
/// functions (`!of_unsafe`), in order.
pub open spec fn group_treewidths(rows: Seq<Row>, of_unsafe: bool) -> Seq<u32>
    decreases rows.len(),
{
    if rows.len() == 0 {
        Seq::empty()
    } else if rows.last().is_unsafe == of_unsafe {
        group_treewidths(rows.drop_last(), of_unsafe).push(rows.last().treewidth)
    } else {
        group_treewidths(rows.drop_last(), of_unsafe)
    }
}

/// The summary statistics of the treewidths of `rows`, over all functions
/// and split into safe and unsafe ones.
pub fn build_summary(rows: &Vec<Row>) -> (s: Summary)
    ensures
        s.total == rows@.len(),
        describes(s.all, treewidths(rows@).to_multiset()),
        describes(s.safe, group_treewidths(rows@, false).to_multiset()),
        describes(s.unsafe_group, group_treewidths(rows@, true).to_multiset()),
        s.safe.count + s.unsafe_group.count == s.total,
        s.distribution@.len() == s.all.max + 1,
        sum_counts(s.distribution@) == s.total,
        forall|k: int| 0 <= k < s.distribution@.len() ==> #[trigger] s.distribution@[k]
            == treewidths(rows@).to_multiset().count(k as u32),
{
    let mut acc = Accumulator::default();
    let mut i: usize = 0;
    while i < rows.len()
        invariant
            i <= rows@.len(),
            acc.wf(),
            acc.all_values() == treewidths(rows@.take(i as int)),
            acc.safe_values() == group_treewidths(rows@.take(i as int), false),
            acc.unsafe_values() == group_treewidths(rows@.take(i as int), true),
        decreases rows@.len() - i,
    {
        proof {
            assert(rows@.take(i + 1).drop_last() == rows@.take(i as int));
            assert(rows@.take(i + 1).last() == rows@[i as int]);
            assert(treewidths(rows@.take(i + 1)) =~= treewidths(rows@.take(i as int)).push(rows@[i as int].treewidth));
        }
        acc.add(rows[i].treewidth, rows[i].is_unsafe);
        i += 1;
    }
    assert(rows@.take(rows@.len() as int) == rows@);
    acc.into_summary()
}

/// The length of the bar drawn for `count` of `total` functions: forty times
/// the share, rounded down (a total of 0 taken as 1), and at least 1 for a
/// count above 0.
pub open spec fn bar_len(count: nat, total: nat) -> nat {
    let scaled = count * 40 / (if total == 0 {
        1
    } else {
        total
    });
    if count > 0 && scaled == 0 {
        1
    } else {
        scaled
    }
}

/// The decimal digits of `n`, with spaces in front up to `width` characters.
pub open spec fn padded(n: nat, width: nat) -> Seq<char> {
    let d = decimal(n);
    if d.len() < width {
        Seq::new((width - d.len()) as nat, |i: int| ' ') + d
    } else {
        d
    }
}

/// The printed line of the distribution for treewidth `tw`.
pub open spec fn distribution_line(tw: nat, count: nat, total: nat) -> Seq<char> {
    "  tw="@ + padded(tw, 2) + ": "@ + padded(count, 6) + "  "@ + Seq::new(bar_len(count, total), |i: int| '#')
}

/// The number of distribution rows printed, looking from row `k` on: rows
/// are printed up to treewidth 14, stopping before the first empty row
/// beyond the largest treewidth `max`.
pub open spec fn printed_rows(dist: Seq<usize>, max: u32, k: nat) -> nat
    decreases 15 - k,
{
    if k >= 15 || k >= dist.len() || (dist[k as int] == 0 && k > max) {
        k
    } else {
        printed_rows(dist, max, k + 1)
    }
}

/// The number of functions of treewidth 15 or more.
pub open spec fn overflow_count(dist: Seq<usize>) -> nat {
    if dist.len() > 15 {
        sum_counts(dist.subrange(15, dist.len() as int))
    } else {
        0
    }
}

/// The printed distribution: a line for each printed row, then, when
/// functions of treewidth 15 or more exist, a line with their number.
pub open spec fn distribution_text(dist: Seq<usize>, total: nat, max: u32) -> Seq<Seq<char>> {
    let rows = Seq::new(printed_rows(dist, max, 0), |k: int| distribution_line(k as nat, dist[k] as nat, total));
    if overflow_count(dist) > 0 {
        rows.push("  tw\u{2265}15: "@ + padded(overflow_count(dist), 6))
    } else {
        rows
    }
}

/// A sum of counts is at least the sum of any of its prefixes.
proof fn lemma_sum_counts_prefix(s: Seq<usize>, j: int)
    requires
        0 <= j <= s.len(),
    ensures
        sum_counts(s.take(j)) <= sum_counts(s),
    decreases s.len(),
{
    if j < s.len() {
        assert(s.drop_last().take(j) == s.take(j));
        lemma_sum_counts_prefix(s.drop_last(), j);
    } else {
        assert(s.take(j) == s);
    }
}

/// Appends the decimal digits of `n` to `s`, with spaces in front up to
/// `width` characters.
fn push_padded(s: &mut String, n: u64, width: usize)
    ensures
        final(s)@ == old(s)@ + padded(n as nat, width as nat),
{
    let mut digits = String::new();
    push_decimal(&mut digits, n);
    assert(digits@ == Seq::<char>::empty() + decimal(n as nat));
    let len = digits.as_str().unicode_len();
    let mut k: usize = len;
    while k < width
        invariant
            len == decimal(n as nat).len(),
            len <= k <= width || (k == len && len >= width),
            s@ == old(s)@ + Seq::new((k - len) as nat, |i: int| ' '),
        decreases width - k,
    {
        push_char(s, ' ');
        k += 1;
        assert(s@ =~= old(s)@ + Seq::new((k - len) as nat, |i: int| ' '));
    }
    s.append(digits.as_str());
    assert(s@ =~= old(s)@ + padded(n as nat, width as nat));
}

/// The lines that print the distribution of treewidths (`dist[k]` functions
/// of treewidth `k`, of `total` in all, the largest treewidth being `max`).
pub fn distribution_lines(dist: &Vec<usize>, total: usize, max: u32) -> (lines: Vec<String>)
    requires
        forall|k: int| 0 <= k < dist@.len() && k < 15 ==> #[trigger] dist@[k] * 40 <= usize::MAX,
        overflow_count(dist@) <= usize::MAX,
    ensures
        texts(lines@) == distribution_text(dist@, total as nat, max),
{
    let len = dist.len();
    let shown = if len < 15 { len } else { 15 };
    let divisor: usize = if total == 0 { 1 } else { total };
    let mut lines: Vec<String> = Vec::new();
    let mut tw: usize = 0;
    while tw < shown
        invariant
            len == dist@.len(),
            shown == (if len < 15 { len } else { 15 }),
            divisor == (if total == 0 { 1 } else { total }),
            tw <= shown,
            forall|k: int| 0 <= k < dist@.len() && k < 15 ==> #[trigger] dist@[k] * 40 <= usize::MAX,
            printed_rows(dist@, max, 0) == printed_rows(dist@, max, tw as nat),
            texts(lines@) == Seq::new(tw as nat, |k: int| distribution_line(k as nat, dist@[k] as nat, total as nat)),
        ensures
            printed_rows(dist@, max, 0) == tw,
            texts(lines@) == Seq::new(tw as nat, |k: int| distribution_line(k as nat, dist@[k] as nat, total as nat)),
        decreases shown - tw,
    {
        let count = dist[tw];
        if count == 0 && tw > max as usize {
            break;
        }
        let scaled = count * 40 / divisor;
        let bar = if count > 0 && scaled == 0 { 1 } else { scaled };
        let mut line = string_of("  tw=");
        push_padded(&mut line, tw as u64, 2);
        line.append(": ");
        push_padded(&mut line, count as u64, 6);
        line.append("  ");
        let mut j: usize = 0;
        let ghost start = line@;
        while j < bar
            invariant
                j <= bar,
                line@ == start + Seq::new(j as nat, |i: int| '#'),
            decreases bar - j,
        {
            push_char(&mut line, '#');
            j += 1;
            assert(line@ =~= start + Seq::new(j as nat, |i: int| '#'));
        }
        proof {
            assert(bar == bar_len(count as nat, total as nat));
            assert(line@ == distribution_line(tw as nat, count as nat, total as nat));
        }
        let ghost before = lines@;
        let ghost text = line@;
        lines.push(line);
        tw += 1;
        proof {
            assert(texts(lines@) =~= texts(before).push(text));
            assert(texts(lines@) =~= Seq::new(tw as nat, |k: int| distribution_line(k as nat, dist@[k] as nat, total as nat)));
        }
    }
    let mut overflow: usize = 0;
    if len > 15 {
        let mut j: usize = 15;
        while j < len
            invariant
                len == dist@.len(),
                len > 15,
                15 <= j <= len,
                overflow_count(dist@) <= usize::MAX,
                overflow == sum_counts(dist@.subrange(15, j as int)),
            decreases len - j,
        {
            proof {
                let tail = dist@.subrange(15, len as int);
                assert(dist@.subrange(15, j + 1) == tail.take(j + 1 - 15));
                lemma_sum_counts_prefix(tail, j + 1 - 15);
                assert(dist@.subrange(15, j + 1).drop_last() == dist@.subrange(15, j as int));
            }
            overflow = overflow + dist[j];
            j += 1;
        }
    }
    proof {
        if len > 15 {
        } else {
            assert(overflow_count(dist@) == 0);
        }
    }
    if overflow > 0 {
        let mut line = string_of("  tw\u{2265}15: ");
        push_padded(&mut line, overflow as u64, 6);
        let ghost before = lines@;
        lines.push(line);
        proof {
            assert(texts(lines@) =~= texts(before).push(line@));
        }
    }
    lines
}

} // verus!
