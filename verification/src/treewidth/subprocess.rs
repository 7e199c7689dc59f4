//! Treewidth from the FlowCutter solver run as a separate program: the graph
//! goes to it as a PACE `.gr` text, and the treewidth is read back from the
//! tree decomposition it prints. Running the program (finding it, the
//! temporary files, the time limit) is the caller's part; the decisions
//! before and after the run are here.

use vstd::prelude::*;
use crate::graph::Graph;
use crate::text::{chars_of, decimal, is_white, push_char, push_decimal, string_of, white};
use crate::treewidth::flowcutter::upper_edges;

verus! {

/// Why the solver could not give a treewidth.
pub enum TwError {
    SolverNotFound(String),
    SolverFailed(String),
    Timeout,
}

impl TwError {
    /// The text the error displays.
    pub open spec fn spec_message(&self) -> Seq<char> {
        match self {
            TwError::SolverNotFound(msg) => "solver not found: "@ + msg@,
            TwError::SolverFailed(msg) => "solver failed: "@ + msg@,
            TwError::Timeout => "solver timed out"@,
        }
    }

    /// The text the error displays.
    pub fn message(&self) -> (m: String)
        ensures
            m@ == self.spec_message(),
    {
        match self {
            TwError::SolverNotFound(msg) => {
                let mut m = string_of("solver not found: ");
                m.append(msg.as_str());
                m
            },
            TwError::SolverFailed(msg) => {
                let mut m = string_of("solver failed: ");
                m.append(msg.as_str());
                m
            },
            TwError::Timeout => string_of("solver timed out"),
        }
    }
}

/// Every character of `s` is white space (what remains after trimming is
/// empty).
pub open spec fn is_blank(s: Seq<char>) -> bool {
    forall|i: int| 0 <= i < s.len() ==> is_white(#[trigger] s[i])
}

fn blank(s: &Vec<char>) -> (b: bool)
    ensures
        b == is_blank(s@),
{
    let mut i: usize = 0;
    while i < s.len()
        invariant
            i <= s@.len(),
            forall|j: int| 0 <= j < i ==> is_white(#[trigger] s@[j]),
        decreases s@.len() - i,
    {
        if !white(s[i]) {
            return false;
        }
        i += 1;
    }
    true
}

/// The lines of `t`: the pieces between newline characters.
pub open spec fn split_lines(t: Seq<char>) -> Seq<Seq<char>>
    decreases t.len(),
{
    if t.len() == 0 {
        seq![Seq::<char>::empty()]
    } else {
        let p = split_lines(t.drop_last());
        if t.last() == '\n' {
            p.push(Seq::<char>::empty())
        } else {
            p.update(p.len() - 1, p.last().push(t.last()))
        }
    }
}

/// The number of words (maximal runs of non-white characters) in `s`.
pub open spec fn word_count(s: Seq<char>) -> nat
    decreases s.len(),
{
    if s.len() == 0 {
        0
    } else {
        let q = s.drop_last();
        word_count(q) + if !is_white(s.last()) && (q.len() == 0 || is_white(q.last())) {
            1nat
        } else {
            0nat
        }
    }
}

/// The first word of `s` is the single letter `b`.
pub open spec fn first_word_is_b(s: Seq<char>) -> bool
    decreases s.len(),
{
    if s.len() == 0 {
        false
    } else {
        let q = s.drop_last();
        let c = s.last();
        if word_count(q) == 0 {
            c == 'b'
        } else if word_count(q) == 1 && !is_white(q.last()) && !is_white(c) {
            false
        } else {
            first_word_is_b(q)
        }
    }
}

/// The bag size that a line of a tree decomposition states: a line whose
/// first word is `b` and that has at least two words lists a bag after `b`
/// and the bag's number.
pub open spec fn bag_size(line: Seq<char>) -> Option<nat> {
    if first_word_is_b(line) && word_count(line) >= 2 {
        Some((word_count(line) - 2) as nat)
    } else {
        None
    }
}

pub open spec fn max_option(a: Option<nat>, b: Option<nat>) -> Option<nat> {
    match (a, b) {
        (None, _) => b,
        (Some(x), None) => Some(x),
        (Some(x), Some(y)) => Some(if x >= y { x } else { y }),
    }
}

/// The largest bag size that the lines state, if any line states one.
pub open spec fn largest_bag(lines: Seq<Seq<char>>) -> Option<nat>
    decreases lines.len(),
{
    if lines.len() == 0 {
        None
    } else {
        max_option(largest_bag(lines.drop_last()), bag_size(lines.last()))
    }
}

/// An optional size held in a `usize` equals one stated as a natural number.
pub open spec fn same_size(x: Option<usize>, y: Option<nat>) -> bool {
    match (x, y) {
        (None, None) => true,
        (Some(a), Some(b)) => a as nat == b,
        _ => false,
    }
}

/// The text that `{:?}` formatting gives a string: quoted, with escapes.
pub uninterp spec fn debug_repr(s: Seq<char>) -> Seq<char>;

/// Formats `s` with `{:?}` through the standard library's `Debug` for
/// strings. Claimed of it: the result depends on the characters of `s`
/// alone; what it is, is left to the name `debug_repr`.
#[verifier::external_body]
fn debug_text(s: &String) -> (r: String)
    ensures
        r@ == debug_repr(s@),
{
    format!("{:?}", s)
}

/// The message when the solver printed no bag: the start of its output,
/// `{:?}`-formatted.
pub open spec fn no_bag_message(output: Seq<char>) -> Seq<char> {
    "no bag lines found in output: "@ + debug_repr(output.take(if output.len() < 300 {
        output.len() as int
    } else {
        300
    }))
}

/// The treewidth that a PACE tree decomposition states: the largest bag
/// size minus one. The header line is not read; the bag lines
/// (`b <bag number> <vertices...>`) decide.
pub fn parse_output(output: &str) -> (r: Result<u32, TwError>)
    ensures
        match largest_bag(split_lines(output@)) {
            Some(s) if s > 0 => r == Ok::<u32, TwError>((s - 1) as u32),
            _ => r matches Err(TwError::SolverFailed(msg)) && msg@ == no_bag_message(output@),
        },
{
    let text = chars_of(output);
    let mut max_bag: Option<usize> = None;
    let mut words: usize = 0;
    let mut first_b: bool = false;
    let mut prev_white: bool = true;
    let mut i: usize = 0;
    proof {
        assert(text@.take(0) == Seq::<char>::empty());
    }
    while i < text.len()
        invariant
            text@ == output@,
            i <= text@.len(),
            ({
                let ls = split_lines(text@.take(i as int));
                let cur = ls.last();
                &&& ls.len() >= 1
                &&& words == word_count(cur)
                &&& first_b == first_word_is_b(cur)
                &&& prev_white == (cur.len() == 0 || is_white(cur.last()))
                &&& same_size(max_bag, largest_bag(ls.drop_last()))
                &&& words <= cur.len()
                &&& cur.len() <= i
            }),
            forall|s: nat| largest_bag(split_lines(text@.take(i as int)).drop_last()) == Some(s) ==> s <= i,
        decreases text@.len() - i,
    {
        let c = text[i];
        let ghost pre = text@.take(i as int);
        let ghost ls = split_lines(pre);
        proof {
            assert(text@.take(i + 1).drop_last() == pre);
            assert(text@.take(i + 1).last() == c);
        }
        if c == '\n' {
            let line_bag: Option<usize> = if first_b && words >= 2 { Some(words - 2) } else { None };
            max_bag = match (max_bag, line_bag) {
                (None, b) => b,
                (Some(x), None) => Some(x),
                (Some(x), Some(y)) => Some(if x >= y { x } else { y }),
            };
            words = 0;
            first_b = false;
            prev_white = true;
            proof {
                let ls2 = split_lines(text@.take(i + 1));
                assert(ls2 == ls.push(Seq::<char>::empty()));
                assert(ls2.drop_last() == ls);
                assert(ls == ls.drop_last().push(ls.last()));
            }
        } else {
            let w = white(c);
            proof {
                let cur = ls.last();
                let cur2 = cur.push(c);
                assert(cur2.drop_last() == cur);
                let ls2 = split_lines(text@.take(i + 1));
                assert(ls2 == ls.update(ls.len() - 1, cur2));
                assert(ls2.drop_last() == ls.drop_last());
            }
            if words == 0 {
                first_b = c == 'b';
            } else if words == 1 && !prev_white && !w {
                first_b = false;
            }
            if !w && prev_white {
                words += 1;
            }
            prev_white = w;
        }
        i += 1;
    }
    proof {
        assert(text@.take(text@.len() as int) == text@);
        let ls = split_lines(text@);
        assert(ls == ls.drop_last().push(ls.last()));
    }
    let line_bag: Option<usize> = if first_b && words >= 2 { Some(words - 2) } else { None };
    let best = match (max_bag, line_bag) {
        (None, b) => b,
        (Some(x), None) => Some(x),
        (Some(x), Some(y)) => Some(if x >= y { x } else { y }),
    };
    match best {
        Some(s) if s > 0 => Ok((s - 1) as u32),
        _ => {
            let keep: usize = if text.len() < 300 { text.len() } else { 300 };
            let mut head = String::new();
            let mut k: usize = 0;
            while k < keep
                invariant
                    keep <= text@.len(),
                    k <= keep,
                    head@ == text@.take(k as int),
                decreases keep - k,
            {
                push_char(&mut head, text[k]);
                proof {
                    assert(text@.take(k + 1) == text@.take(k as int).push(text@[k as int]));
                }
                k += 1;
            }
            let mut msg = string_of("no bag lines found in output: ");
            let quoted = debug_text(&head);
            msg.append(quoted.as_str());
            Err(TwError::SolverFailed(msg))
        },
    }
}

/// What to do next for a graph: nothing, because the answer is already
/// known, or run the solver on the given PACE text.
pub enum SolverStep {
    Done(Result<u32, TwError>),
    Run(String),
}

/// The PACE text of a graph: the line `p tw <n> <m>`, then one line
/// `<u> <v>` per edge with `u < v`, vertices numbered from 1.
pub open spec fn pace_text(n: nat, m: nat, edges: Seq<(usize, usize)>) -> Seq<char>
    decreases edges.len(),
{
    if edges.len() == 0 {
        "p tw "@ + decimal(n) + seq![' '] + decimal(m) + seq!['\n']
    } else {
        let e = edges.last();
        pace_text(n, m, edges.drop_last()) + decimal(e.0 as nat + 1) + seq![' '] + decimal(e.1 as nat + 1)
            + seq!['\n']
    }
}

/// The PACE text of `g`.
pub fn to_pace_text(g: &Graph) -> (t: String)
    requires
        g.wf(),
    ensures
        t@ == pace_text(g.n as nat, g.spec_edge_count() as nat, upper_edges(g.adj@)),
{
    let m = g.edge_count();
    let mut t = string_of("p tw ");
    push_decimal(&mut t, g.n as u64);
    push_char(&mut t, ' ');
    push_decimal(&mut t, m as u64);
    push_char(&mut t, '\n');
    proof {
        assert(t@ == pace_text(g.n as nat, m as nat, Seq::<(usize, usize)>::empty()));
        assert(upper_edges(g.adj@.take(0)) == Seq::<(usize, usize)>::empty());
    }
    let mut u: usize = 0;
    while u < g.n
        invariant
            g.wf(),
            u <= g.n,
            m == g.spec_edge_count(),
            t@ == pace_text(g.n as nat, m as nat, upper_edges(g.adj@.take(u as int))),
        decreases g.n - u,
    {
        let row = &g.adj[u];
        let ghost base = upper_edges(g.adj@.take(u as int));
        let mut k: usize = 0;
        while k < row.len()
            invariant
                g.wf(),
                u < g.n,
                m == g.spec_edge_count(),
                row@ == g.adj@[u as int]@,
                k <= row@.len(),
                t@ == pace_text(g.n as nat, m as nat, base + crate::treewidth::flowcutter::upper_row(u, row@.take(k as int))),
            decreases row@.len() - k,
        {
            let v = row[k];
            proof {
                assert(row@.take(k + 1).drop_last() == row@.take(k as int));
                assert(row@.take(k + 1).last() == v);
                assert(v < g.n);
            }
            if u < v {
                let ghost es = base + crate::treewidth::flowcutter::upper_row(u, row@.take(k as int));
                push_decimal(&mut t, u as u64 + 1);
                push_char(&mut t, ' ');
                push_decimal(&mut t, v as u64 + 1);
                push_char(&mut t, '\n');
                proof {
                    let es2 = base + crate::treewidth::flowcutter::upper_row(u, row@.take(k + 1));
                    assert(es2 == es.push((u, v)));
                    assert(es2.drop_last() == es);
                }
            }
            k += 1;
        }
        proof {
            assert(row@.take(row@.len() as int) == row@);
            assert(g.adj@.take(u + 1).drop_last() == g.adj@.take(u as int));
            assert(g.adj@.take(u + 1).last() == g.adj@[u as int]);
        }
        u += 1;
    }
    proof {
        assert(g.adj@.take(g.n as int) == g.adj@);
    }
    t
}

/// The first decision: a graph with at most one vertex or no edge has
/// treewidth 0 and needs no solver; otherwise the solver gets its PACE text.
pub fn compute(g: &Graph) -> (step: SolverStep)
    requires
        g.wf(),
    ensures
        (g.n <= 1 || g.spec_edge_count() == 0) ==> step == SolverStep::Done(Ok::<u32, TwError>(0)),
        !(g.n <= 1 || g.spec_edge_count() == 0) ==> (step matches SolverStep::Run(text) && text@ == pace_text(
            g.n as nat,
            g.spec_edge_count() as nat,
            upper_edges(g.adj@),
        )),
{
    if g.n <= 1 || g.edge_count() == 0 {
        return SolverStep::Done(Ok(0));
    }
    SolverStep::Run(to_pace_text(g))
}

/// The second decision, on what the solver printed: nothing printed and the
/// time limit hit means a timeout; otherwise the output is read.
pub fn finish(stdout: &str, timed_out: bool) -> (r: Result<u32, TwError>)
    ensures
        is_blank(stdout@) && timed_out ==> r == Err::<u32, TwError>(TwError::Timeout),
        !(is_blank(stdout@) && timed_out) ==> match largest_bag(split_lines(stdout@)) {
            Some(s) if s > 0 => r == Ok::<u32, TwError>((s - 1) as u32),
            _ => r matches Err(TwError::SolverFailed(msg)) && msg@ == no_bag_message(stdout@),
        },
{
    let text = chars_of(stdout);
    if blank(&text) && timed_out {
        return Err(TwError::Timeout);
    }
    parse_output(stdout)
}

/// Whether a solver program is there to run: a name that is blank after
/// trimming is refused, a name that the caller could not find is reported.
pub fn check_solver_binary(bin: &str, found: bool) -> (r: Result<(), TwError>)
    ensures
        is_blank(bin@) ==> (r matches Err(TwError::SolverNotFound(msg))
            && msg@ == "FLOW_CUTTER_BIN is empty; set it to the FlowCutter executable path"@),
        !is_blank(bin@) && found ==> r is Ok,
        !is_blank(bin@) && !found ==> (r matches Err(TwError::SolverNotFound(msg)) && msg@ == "could not find '"@
            + bin@ + "' (set FLOW_CUTTER_BIN=/absolute/path/to/flow_cutter_pace17)"@),
{
    let chars = chars_of(bin);
    if blank(&chars) {
        return Err(TwError::SolverNotFound(string_of(
            "FLOW_CUTTER_BIN is empty; set it to the FlowCutter executable path",
        )));
    }
    if found {
        Ok(())
    } else {
        let mut msg = string_of("could not find '");
        msg.append(bin);
        msg.append("' (set FLOW_CUTTER_BIN=/absolute/path/to/flow_cutter_pace17)");
        Err(TwError::SolverNotFound(msg))
    }
}

/// Where the wait for the solver program stands.
pub enum WaitPhase {
    /// The program runs within its time limit.
    Running,
    /// The time limit passed and the program was asked to stop; it has a
    /// grace period to do so.
    Stopping,
}

/// What the wait for the solver program does next.
pub enum WaitAction {
    /// Stop waiting; the flag tells whether the time limit was reached.
    Done(bool),
    /// Sleep this many milliseconds, then look again.
    Sleep(u64),
    /// Ask the program to stop, start the grace period (the phase becomes
    /// `Stopping`), and look again at once.
    Terminate,
    /// Kill the program, reap it, and stop waiting: the time limit was
    /// reached.
    Kill,
}

/// The grace period, in nanoseconds, that a program asked to stop gets
/// before it is killed.
pub open spec fn grace_nanos() -> int {
    200_000_000
}

/// One decision of the wait for the solver program. `exited` tells whether
/// the program has ended; `elapsed` is the time in nanoseconds since the
/// start (while `Running`) or since it was asked to stop (while
/// `Stopping`); `timeout` is the time limit in nanoseconds.
/// - Running: an ended program ends the wait within the limit; otherwise,
///   once the limit is reached, the program is asked to stop; otherwise the
///   wait sleeps 20 ms.
/// - Stopping: once the grace period of 200 ms is over the program is
///   killed; otherwise an ended program ends the wait; otherwise the wait
///   sleeps 10 ms. Either way the time limit was reached.
pub fn wait_step(phase: &WaitPhase, exited: bool, elapsed: u128, timeout: u128) -> (a: WaitAction)
    ensures
        match phase {
            WaitPhase::Running => {
                if exited {
                    a == WaitAction::Done(false)
                } else if elapsed >= timeout {
                    a == WaitAction::Terminate
                } else {
                    a == WaitAction::Sleep(20)
                }
            },
            WaitPhase::Stopping => {
                if elapsed >= grace_nanos() {
                    a == WaitAction::Kill
                } else if exited {
                    a == WaitAction::Done(true)
                } else {
                    a == WaitAction::Sleep(10)
                }
            },
        },
{
    match phase {
        WaitPhase::Running => {
            if exited {
                WaitAction::Done(false)
            } else if elapsed >= timeout {
                WaitAction::Terminate
            } else {
                WaitAction::Sleep(20)
            }
        },
        WaitPhase::Stopping => {
            if elapsed >= 200_000_000 {
                WaitAction::Kill
            } else if exited {
                WaitAction::Done(true)
            } else {
                WaitAction::Sleep(10)
            }
        },
    }
}

} // verus!
