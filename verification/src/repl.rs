//! The front-end decision logic of the session: command classification,
//! snippet parsing, command history, and the call-graph bookkeeping that
//! follows a committed snippet.
//!
//! Everything here is a pure function of its inputs; reading stdin, writing
//! the pipes and printing stay outside the library.

use crate::callgraph::BothWayGraph;
use crate::callgraph::CallGraph;
use crate::callgraph::GraphError;
use crate::graph_model::GraphModel;
use crate::session::Verdict;
use crate::session::spec_parse_reply;
use vstd::prelude::*;
use vstd::string::StrSliceExecFns;

verus! {

/// The characters stripped from the ends of a line: the Unicode
/// white-space set.
pub open spec fn is_ws(c: char) -> bool {
    ||| c == ' '
    ||| c == '\t'
    ||| c == '\n'
    ||| c == '\u{0b}'
    ||| c == '\u{0c}'
    ||| c == '\r'
    ||| c == '\u{85}'
    ||| c == '\u{a0}'
    ||| c == '\u{1680}'
    ||| c == '\u{2000}'
    ||| c == '\u{2001}'
    ||| c == '\u{2002}'
    ||| c == '\u{2003}'
    ||| c == '\u{2004}'
    ||| c == '\u{2005}'
    ||| c == '\u{2006}'
    ||| c == '\u{2007}'
    ||| c == '\u{2008}'
    ||| c == '\u{2009}'
    ||| c == '\u{200a}'
    ||| c == '\u{2028}'
    ||| c == '\u{2029}'
    ||| c == '\u{202f}'
    ||| c == '\u{205f}'
    ||| c == '\u{3000}'
}

/// The sequence without its leading whitespace.
pub open spec fn trim_left(s: Seq<char>) -> Seq<char>
    decreases s.len(),
{
    if s.len() > 0 && is_ws(s.first()) {
        trim_left(s.drop_first())
    } else {
        s
    }
}

/// The sequence without its trailing whitespace.
pub open spec fn trim_right(s: Seq<char>) -> Seq<char>
    decreases s.len(),
{
    if s.len() > 0 && is_ws(s.last()) {
        trim_right(s.drop_last())
    } else {
        s
    }
}

/// The sequence without leading and trailing whitespace.
pub open spec fn trimmed(s: Seq<char>) -> Seq<char> {
    trim_right(trim_left(s))
}

/// Dropping a whitespace prefix is what `trim_left` does.
proof fn lemma_trim_left_skip(s: Seq<char>, k: int)
    requires
        0 <= k <= s.len(),
        forall|j: int| 0 <= j < k ==> is_ws(#[trigger] s[j]),
        k == s.len() || !is_ws(s[k]),
    ensures
        trim_left(s) == s.skip(k),
    decreases k,
{
    if k == 0 {
        assert(s.skip(0) =~= s);
        if s.len() > 0 {
            assert(!is_ws(s.first()));
        }
    } else {
        assert(is_ws(s.first()));
        assert(trim_left(s) == trim_left(s.drop_first()));
        assert(s.drop_first() =~= s.skip(1));
        lemma_trim_left_skip(s.skip(1), k - 1);
        assert(s.skip(1).skip(k - 1) =~= s.skip(k));
    }
}

/// Dropping a whitespace suffix is what `trim_right` does.
proof fn lemma_trim_right_take(s: Seq<char>, h: int)
    requires
        0 <= h <= s.len(),
        forall|j: int| h <= j < s.len() ==> is_ws(#[trigger] s[j]),
        h == 0 || !is_ws(s[h - 1]),
    ensures
        trim_right(s) == s.take(h),
    decreases s.len(),
{
    if h == s.len() {
        if s.len() == 0 || !is_ws(s.last()) {
            assert(s.take(h) =~= s);
        } else {
            assert(!is_ws(s[h - 1]));
        }
    } else {
        assert(is_ws(s.last()));
        assert(trim_right(s) == trim_right(s.drop_last()));
        lemma_trim_right_take(s.drop_last(), h);
        assert(s.drop_last().take(h) =~= s.take(h));
    }
}

/// Whether a character is stripped by trimming.
fn is_ws_char(c: char) -> (r: bool)
    ensures
        r == is_ws(c),
{
    c == ' ' || c == '\t' || c == '\n' || c == '\u{0b}' || c == '\u{0c}' || c == '\r' || c
        == '\u{85}' || c == '\u{a0}' || c == '\u{1680}' || c == '\u{2000}' || c == '\u{2001}' || c
        == '\u{2002}' || c == '\u{2003}' || c == '\u{2004}' || c == '\u{2005}' || c == '\u{2006}'
        || c == '\u{2007}' || c == '\u{2008}' || c == '\u{2009}' || c == '\u{200a}' || c
        == '\u{2028}' || c == '\u{2029}' || c == '\u{202f}' || c == '\u{205f}' || c == '\u{3000}'
}

/// The line without leading and trailing whitespace.
pub fn trim_str(s: &str) -> (r: &str)
    ensures
        r@ == trimmed(s@),
{
    let n = s.unicode_len();
    let mut lo: usize = 0;
    while lo < n && is_ws_char(s.get_char(lo))
        invariant
            lo <= n,
            n == s@.len(),
            forall|j: int| 0 <= j < lo ==> is_ws(#[trigger] s@[j]),
        decreases n - lo,
    {
        lo += 1;
    }
    proof {
        lemma_trim_left_skip(s@, lo as int);
    }
    if lo == n {
        proof {
            assert(s@.skip(n as int) =~= Seq::<char>::empty());
            assert(trimmed(s@) =~= Seq::<char>::empty());
            reveal_strlit("");
            assert(""@ =~= Seq::<char>::empty());
        }
        return "";
    }
    let mut hi: usize = n;
    while hi > lo + 1 && is_ws_char(s.get_char(hi - 1))
        invariant
            lo < hi <= n,
            n == s@.len(),
            !is_ws(s@[lo as int]),
            forall|j: int| hi <= j < n ==> is_ws(#[trigger] s@[j]),
        decreases hi,
    {
        hi -= 1;
    }
    // the scan stops at a non-whitespace character, or at lo + 1 where the
    // character at lo is already known not to be whitespace
    let r = s.substring_char(lo, hi);
    proof {
        assert(hi == lo + 1 ==> !is_ws(s@[lo as int]));
        assert(!is_ws(s@[hi - 1]));
        let t = s@.skip(lo as int);
        lemma_trim_right_take(t, hi - lo);
        assert(r@ =~= t.take(hi - lo));
    }
    r
}

/// The index of the first `": "` separator, if any.
pub open spec fn spec_find_sep(s: Seq<char>) -> Option<int>
    decreases s.len(),
{
    if s.len() < 2 {
        None
    } else if s[0] == ':' && s[1] == ' ' {
        Some(0)
    } else {
        match spec_find_sep(s.drop_first()) {
            None => None,
            Some(i) => Some(i + 1),
        }
    }
}

/// A scan that saw no separator before `k`, and one at `k` if `k` starts a
/// pair, pins down `spec_find_sep`.
proof fn lemma_find_sep_at(t: Seq<char>, k: int)
    requires
        0 <= k <= t.len(),
        forall|j: int| 0 <= j < k && j + 1 < t.len() ==> !(#[trigger] t[j] == ':' && t[j + 1]
            == ' '),
        k + 1 < t.len() ==> (t[k] == ':' && t[k + 1] == ' '),
    ensures
        spec_find_sep(t) == if k + 1 < t.len() {
            Some(k)
        } else {
            None::<int>
        },
    decreases t.len(),
{
    if t.len() < 2 {
    } else if t[0] == ':' && t[1] == ' ' {
        assert(k == 0);
    } else {
        let d = t.drop_first();
        assert(k > 0 || k + 1 >= t.len()) by {
            if k == 0 && k + 1 < t.len() {
                assert(t[0] == ':' && t[1] == ' ');
            }
        }
        if k + 1 < t.len() {
            lemma_find_sep_at(d, k - 1);
            assert(d[k - 1] == t[k]);
        } else {
            // no separator anywhere: every pair start is below k
            lemma_find_sep_at(d, t.len() - 1);
        }
    }
}

/// The index of the first `": "` in the line, if any.
fn find_sep(code: &str) -> (r: Option<usize>)
    ensures
        match r {
            Some(i) => spec_find_sep(code@) == Some(i as int),
            None => spec_find_sep(code@) == None::<int>,
        },
{
    let n = code.unicode_len();
    let mut i: usize = 0;
    while n >= 2 && i < n - 1
        invariant
            n == code@.len(),
            i <= n,
            forall|j: int| 0 <= j < i && j + 1 < n ==> !(#[trigger] code@[j] == ':' && code@[j + 1]
                == ' '),
        decreases n - i,
    {
        if code.get_char(i) == ':' {
            if code.get_char(i + 1) == ' ' {
                proof {
                    lemma_find_sep_at(code@, i as int);
                }
                return Some(i);
            }
        }
        i += 1;
    }
    proof {
        lemma_find_sep_at(code@, i as int);
    }
    None
}

/// What VISOR does with one input line.
#[derive(Clone, Copy, Debug, PartialEq, Eq, Structural)]
pub enum Command {
    /// Empty line at end of input: print a newline and shut the session
    /// down.
    Eof,
    /// Empty line: prompt again.
    Empty,
    /// `.q`: shut the session down.
    Quit,
    /// `.?`: print the help text.
    Help,
    /// `.h`: print the whole history.
    History,
    /// `.c`: print the history with failed entries commented out.
    CorrectedHistory,
    /// `.s`: reserved for sourcing a file.
    SourceTodo,
    /// `..`: reserved for shelling out.
    ShellTodo,
    /// Anything else: a snippet to dispatch.
    Snippet,
}

/// How one input line is dispatched, by its trimmed text.
pub open spec fn spec_classify(line: Seq<char>, eof: bool) -> Command {
    let t = trimmed(line);
    if t.len() == 0 {
        if eof {
            Command::Eof
        } else {
            Command::Empty
        }
    } else if t == ".q"@ {
        Command::Quit
    } else if t == ".?"@ {
        Command::Help
    } else if t == ".h"@ {
        Command::History
    } else if t == ".c"@ {
        Command::CorrectedHistory
    } else if t == ".s"@ {
        Command::SourceTodo
    } else if t == ".."@ {
        Command::ShellTodo
    } else {
        Command::Snippet
    }
}

/// Dispatches one input line.
pub fn classify_line(line: &str, eof: bool) -> (c: Command)
    ensures
        c == spec_classify(line@, eof),
{
    let t = trim_str(line);
    if t.unicode_len() == 0 {
        if eof {
            Command::Eof
        } else {
            Command::Empty
        }
    } else {
        let owned = t.to_owned();
        if owned == ".q".to_owned() {
            Command::Quit
        } else if owned == ".?".to_owned() {
            Command::Help
        } else if owned == ".h".to_owned() {
            Command::History
        } else if owned == ".c".to_owned() {
            Command::CorrectedHistory
        } else if owned == ".s".to_owned() {
            Command::SourceTodo
        } else if owned == "..".to_owned() {
            Command::ShellTodo
        } else {
            Command::Snippet
        }
    }
}

/// The index of the first comma, if any.
pub open spec fn spec_find_comma(s: Seq<char>) -> Option<int>
    decreases s.len(),
{
    if s.len() == 0 {
        None
    } else if s[0] == ',' {
        Some(0)
    } else {
        match spec_find_comma(s.drop_first()) {
            None => None,
            Some(i) => Some(i + 1),
        }
    }
}

/// The comma-separated pieces of a sequence; splitting an empty sequence
/// gives one empty piece.
pub open spec fn spec_split_commas(s: Seq<char>) -> Seq<Seq<char>>
    decreases s.len(),
{
    match spec_find_comma(s) {
        None => seq![s],
        Some(i) => if 0 <= i < s.len() {
            seq![s.take(i)] + spec_split_commas(s.skip(i + 1))
        } else {
            seq![s]
        },
    }
}

/// A scan that saw no comma before `k`, and one at `k` if `k` is in range,
/// pins down `spec_find_comma`.
proof fn lemma_find_comma_at(t: Seq<char>, k: int)
    requires
        0 <= k <= t.len(),
        forall|j: int| 0 <= j < k ==> #[trigger] t[j] != ',',
        k < t.len() ==> t[k] == ',',
    ensures
        spec_find_comma(t) == if k < t.len() {
            Some(k)
        } else {
            None::<int>
        },
    decreases t.len(),
{
    if t.len() == 0 {
    } else if t[0] == ',' {
        assert(k == 0);
    } else {
        assert(k > 0 || k >= t.len()) by {
            if k == 0 && k < t.len() {
                assert(t[0] == ',');
            }
        }
        let d = t.drop_first();
        if k < t.len() {
            lemma_find_comma_at(d, k - 1);
        } else {
            lemma_find_comma_at(d, t.len() - 1);
        }
    }
}

/// The trimmed text of each piece of a comma-separated list.
pub open spec fn spec_split_trimmed(s: Seq<char>) -> Seq<Seq<char>> {
    spec_split_commas(s).map_values(|p: Seq<char>| trimmed(p))
}

/// Splits a line at its commas and trims each piece.
fn split_and_trim(rest: &str) -> (out: Vec<String>)
    ensures
        out.deep_view() == spec_split_trimmed(rest@),
{
    let n = rest.unicode_len();
    let mut out: Vec<String> = Vec::new();
    let mut start: usize = 0;
    proof {
        assert(rest@.skip(0) =~= rest@);
        assert(out.deep_view() =~= Seq::<Seq<char>>::empty());
        assert(spec_split_trimmed(rest@) =~~= out.deep_view() + spec_split_trimmed(rest@.skip(0)));
    }
    loop
        invariant_except_break
            start <= n,
            n == rest@.len(),
            spec_split_trimmed(rest@) =~~= out.deep_view() + spec_split_trimmed(
                rest@.skip(start as int),
            ),
        ensures
            out.deep_view() == spec_split_trimmed(rest@),
        decreases n - start,
    {
        // find the next comma
        let mut c: usize = start;
        while c < n && rest.get_char(c) != ','
            invariant
                start <= c <= n,
                n == rest@.len(),
                forall|j: int| start <= j < c ==> #[trigger] rest@[j] != ',',
            decreases n - c,
        {
            c += 1;
        }
        let ghost tail = rest@.skip(start as int);
        proof {
            assert forall|j: int| 0 <= j < c - start implies #[trigger] tail[j] != ',' by {
                assert(tail[j] == rest@[start + j]);
            }
            if c < n {
                assert(tail[c - start] == rest@[c as int]);
            }
            lemma_find_comma_at(tail, c - start);
        }
        let piece = rest.substring_char(start, c);
        let t = trim_str(piece);
        let ghost out0 = out.deep_view();
        out.push(t.to_owned());
        proof {
            assert(out.deep_view() =~= out0.push(trimmed(tail.take(c - start)))) by {
                assert(piece@ =~= tail.take(c - start));
            }
        }
        if c >= n {
            proof {
                assert(spec_split_commas(tail) == seq![tail]);
                assert(tail.take(c - start) =~= tail);
                assert(spec_split_trimmed(tail) =~= seq![trimmed(tail)]);
                assert(out.deep_view() =~~= out0 + spec_split_trimmed(tail));
            }
            break;
        }
        proof {
            let next = rest@.skip(c + 1);
            assert(spec_split_commas(tail) == seq![tail.take(c - start)] + spec_split_commas(
                tail.skip(c - start + 1),
            ));
            assert(tail.skip(c - start + 1) =~= next);
            assert(spec_split_trimmed(tail) =~~= seq![trimmed(tail.take(c - start))]
                + spec_split_trimmed(next)) by {
                assert(spec_split_commas(tail) =~~= seq![tail.take(c - start)]
                    + spec_split_commas(next));
            }
            assert(spec_split_trimmed(rest@) =~~= out.deep_view() + spec_split_trimmed(next));
        }
        start = c + 1;
    }
    out
}

/// The parse of a snippet that defines a function: the text before the
/// first `": "` names the function, and the text after it is a
/// comma-separated dependency list, empty when it is all whitespace.
pub open spec fn spec_parse_snippet(code: Seq<char>) -> Option<(Seq<char>, Seq<Seq<char>>)> {
    match spec_find_sep(code) {
        None => None,
        Some(i) => {
            let func = code.take(i);
            let rest = code.skip(i + 2);
            let deps = if trimmed(rest).len() == 0 {
                Seq::<Seq<char>>::empty()
            } else {
                spec_split_trimmed(rest)
            };
            Some((func, deps))
        },
    }
}

/// Separator positions are in range.
proof fn lemma_find_sep_range(s: Seq<char>)
    ensures
        match spec_find_sep(s) {
            Some(i) => 0 <= i && i + 2 <= s.len(),
            None => true,
        },
    decreases s.len(),
{
    if s.len() < 2 {
    } else if s[0] == ':' && s[1] == ' ' {
    } else {
        lemma_find_sep_range(s.drop_first());
    }
}

/// Parses a snippet into its function name and dependency names.
pub fn parse_snippet(code: &str) -> (r: Option<(String, Vec<String>)>)
    ensures
        match r {
            Some(parsed) => spec_parse_snippet(code@) matches Some(p) && p.0 == parsed.0@ && p.1
                == parsed.1.deep_view(),
            None => spec_parse_snippet(code@) == None::<(Seq<char>, Seq<Seq<char>>)>,
        },
{
    let n = code.unicode_len();
    let sep: usize;
    match find_sep(code) {
        None => {
            return None;
        },
        Some(i) => {
            sep = i;
        },
    }
    proof {
        lemma_find_sep_range(code@);
    }
    let func = code.substring_char(0, sep).to_owned();
    let rest = code.substring_char(sep + 2, n);
    proof {
        assert(func@ =~= code@.take(sep as int));
        assert(rest@ =~= code@.skip(sep + 2));
    }
    let deps: Vec<String>;
    if trim_str(rest).unicode_len() == 0 {
        deps = Vec::new();
        proof {
            assert(deps.deep_view() =~= Seq::<Seq<char>>::empty());
        }
    } else {
        deps = split_and_trim(rest);
    }
    Some((func, deps))
}

/// The affected-set report printed after a commit: each name followed by a
/// space.
pub open spec fn spec_render_affected(names: Seq<Seq<char>>) -> Seq<char>
    decreases names.len(),
{
    if names.len() == 0 {
        Seq::empty()
    } else {
        spec_render_affected(names.drop_last()) + names.last() + " "@
    }
}

/// Renders the affected names as one line: each name followed by a space.
pub fn render_affected(names: &Vec<String>) -> (r: String)
    ensures
        r@ == spec_render_affected(names.deep_view()),
{
    let n = names.len();
    let mut line = String::new();
    let mut i: usize = 0;
    proof {
        assert(names.deep_view().take(0) =~= Seq::<Seq<char>>::empty());
    }
    while i < n
        invariant
            i <= n,
            n == names@.len(),
            line@ == spec_render_affected(names.deep_view().take(i as int)),
        decreases n - i,
    {
        line.append(names[i].as_str());
        line.append(" ");
        proof {
            let pre = names.deep_view().take(i + 1);
            assert(pre.drop_last() =~= names.deep_view().take(i as int));
            assert(pre.last() == names@[i as int]@);
            assert(line@ == spec_render_affected(pre));
        }
        i += 1;
    }
    proof {
        assert(names.deep_view().take(n as int) =~= names.deep_view());
    }
    line
}

/// The session banner.
pub fn banner() -> (s: &'static str)
    ensures
        s@ == "rustxi: a transactional jit-based repl; .? for help; .q or ctrl-d to exit."@,
{
    "rustxi: a transactional jit-based repl; .? for help; .q or ctrl-d to exit."
}

/// The prompt printed before each line.
pub fn prompt() -> (s: &'static str)
    ensures
        s@ == "rustxi> "@,
{
    "rustxi> "
}

/// The help text printed for `.?`.
pub fn help() -> (s: &'static str)
    ensures
        s@
            == ".?                   show help\n.q                   exit rustxi\n.h                   show line history\n.c                   correct history only\n.s file              source file -- XXTODO\n.. {commands}        system(commands) -- XXTODO"@,
{
    ".?                   show help\n.q                   exit rustxi\n.h                   show line history\n.c                   correct history only\n.s file              source file -- XXTODO\n.. {commands}        system(commands) -- XXTODO"
}

/// Why a committed snippet still produced no affected-set report.
#[derive(Clone, Copy, Debug, PartialEq, Eq, Structural)]
pub enum ReplError {
    /// The snippet holds no `": "` separator, so it defines no function.
    Parse,
    /// The call graph rejected the definition.
    Graph(GraphError),
}

impl ReplError {
    /// The printable description of the failure.
    pub fn message(&self) -> (s: &'static str)
        ensures
            *self == ReplError::Parse ==> s@ == "TRY code failure: parse error"@,
            forall|e: GraphError| *self == ReplError::Graph(e) ==> (e == GraphError::DepNotInGraph
                ==> s@ == "Dependency not in graph"@) && (e == GraphError::FnNotInGraph ==> s@
                == "Function not in graph"@),
    {
        match self {
            ReplError::Parse => "TRY code failure: parse error",
            ReplError::Graph(e) => e.message(),
        }
    }
}

/// The front end of the session: the command history, the per-command
/// verdicts, and the call graph, which only this process mutates.
pub struct Visor {
    cmd: Vec<String>,
    failed: Vec<bool>,
    callgraph: BothWayGraph,
}

impl Visor {
    /// The dispatched snippets, oldest first.
    pub closed spec fn history_view(&self) -> Seq<Seq<char>> {
        self.cmd.deep_view()
    }

    /// Whether each recorded snippet failed, in history order.
    pub closed spec fn failed_view(&self) -> Seq<bool> {
        self.failed@
    }

    /// The call graph.
    pub closed spec fn graph_model(&self) -> GraphModel {
        self.callgraph.model()
    }

    /// The graph is well formed and at most one snippet awaits its verdict.
    pub closed spec fn wf(&self) -> bool {
        &&& self.callgraph.wf()
        &&& self.failed@.len() <= self.cmd.deep_view().len() <= self.failed@.len() + 1
    }

    /// A dispatched snippet awaits its verdict.
    pub closed spec fn pending(&self) -> bool {
        self.cmd.deep_view().len() == self.failed@.len() + 1
    }

    /// A fresh session: no history, no pending snippet, an empty graph.
    pub fn new() -> (v: Visor)
        ensures
            v.wf(),
            !v.pending(),
            v.history_view() == Seq::<Seq<char>>::empty(),
            v.failed_view() == Seq::<bool>::empty(),
            v.graph_model() == (GraphModel {
                names: Seq::<Seq<char>>::empty(),
                live: Seq::<bool>::empty(),
                callees: Seq::<Set<usize>>::empty(),
            }),
    {
        let v = Visor { cmd: Vec::new(), failed: Vec::new(), callgraph: BothWayGraph::new() };
        proof {
            assert(v.history_view() =~= Seq::<Seq<char>>::empty());
        }
        v
    }

    /// Records a dispatched snippet, its verdict still to come.
    pub fn push_command(&mut self, code: String)
        requires
            old(self).wf(),
            !old(self).pending(),
        ensures
            final(self).wf(),
            final(self).pending(),
            final(self).history_view() == old(self).history_view().push(code@),
            final(self).failed_view() == old(self).failed_view(),
            final(self).graph_model() == old(self).graph_model(),
    {
        let ghost before = self.cmd.deep_view();
        self.cmd.push(code);
        proof {
            assert(self.cmd.deep_view() =~= before.push(self.cmd@.last()@));
        }
    }

    /// Records the verdict of the pending snippet.
    pub fn record_verdict(&mut self, verdict: Verdict)
        requires
            old(self).wf(),
            old(self).pending(),
        ensures
            final(self).wf(),
            !final(self).pending(),
            final(self).history_view() == old(self).history_view(),
            final(self).failed_view() == old(self).failed_view().push(verdict == Verdict::Failed),
            final(self).graph_model() == old(self).graph_model(),
    {
        match verdict {
            Verdict::Failed => self.failed.push(true),
            Verdict::Committed => self.failed.push(false),
        }
    }

    /// Reads a reply-pipe message and records the verdict it carries. An
    /// unknown message records nothing: the caller must treat it as a fatal
    /// protocol error. Nothing here ever touches the call graph: a failed
    /// round leaves it exactly as it was.
    pub fn record_reply(&mut self, reply: &str) -> (r: Option<Verdict>)
        requires
            old(self).wf(),
            old(self).pending(),
        ensures
            final(self).wf(),
            r == spec_parse_reply(reply@),
            final(self).history_view() == old(self).history_view(),
            final(self).graph_model() == old(self).graph_model(),
            match r {
                Some(v) => final(self).failed_view() == old(self).failed_view().push(
                    v == Verdict::Failed,
                ) && !final(self).pending(),
                None => final(self).failed_view() == old(self).failed_view() && final(
                    self).pending(),
            },
    {
        match crate::session::parse_reply(reply) {
            Some(v) => {
                self.record_verdict(v);
                Some(v)
            },
            None => None,
        }
    }

    /// Whether a dispatched snippet still awaits its verdict.
    pub fn has_pending(&self) -> (r: bool)
        requires
            self.wf(),
        ensures
            r == self.pending(),
    {
        self.cmd.len() > self.failed.len()
    }

    /// The history, verbatim: what `.h` prints.
    pub fn history_lines(&self) -> (r: Vec<String>)
        ensures
            r.deep_view() == self.history_view(),
    {
        let n = self.cmd.len();
        let mut r: Vec<String> = Vec::new();
        let mut i: usize = 0;
        while i < n
            invariant
                i <= n,
                n == self.cmd@.len(),
                r@.len() == i,
                forall|j: int| 0 <= j < i ==> #[trigger] r@[j]@ == self.cmd@[j]@,
            decreases n - i,
        {
            r.push(self.cmd[i].clone());
            i += 1;
        }
        proof {
            assert(r.deep_view() =~= self.history_view());
        }
        r
    }

    /// The history with failed entries commented out: what `.c` prints.
    pub fn corrected_history_lines(&self) -> (r: Vec<String>)
        requires
            self.wf(),
            !self.pending(),
        ensures
            r.deep_view().len() == self.history_view().len(),
            forall|i: int|
                0 <= i < r.deep_view().len() ==> r.deep_view()[i] == if self.failed_view()[i] {
                    "//not: "@ + self.history_view()[i]
                } else {
                    self.history_view()[i]
                },
    {
        let n = self.cmd.len();
        let mut r: Vec<String> = Vec::new();
        let mut i: usize = 0;
        while i < n
            invariant
                self.wf(),
                !self.pending(),
                i <= n,
                n == self.cmd@.len(),
                r@.len() == i,
                forall|j: int|
                    0 <= j < i ==> #[trigger] r@[j]@ == if self.failed@[j] {
                        "//not: "@ + self.cmd@[j]@
                    } else {
                        self.cmd@[j]@
                    },
            decreases n - i,
        {
            if self.failed[i] {
                let mut line = "//not: ".to_owned();
                line.append(self.cmd[i].as_str());
                r.push(line);
            } else {
                r.push(self.cmd[i].clone());
            }
            i += 1;
        }
        r
    }

    /// The call-graph bookkeeping of a committed snippet: parse it as a
    /// function definition and record its dependencies, reporting every
    /// function the new definition invalidates. The history is not touched;
    /// a rejected definition leaves the graph as it was.
    pub fn compile_and_run_code_snippet(&mut self, code: &str) -> (r: Result<
        Vec<String>,
        ReplError,
    >)
        requires
            old(self).wf(),
        ensures
            final(self).wf(),
            final(self).history_view() == old(self).history_view(),
            final(self).failed_view() == old(self).failed_view(),
            final(self).pending() == old(self).pending(),
            ({
                let m = old(self).graph_model();
                match spec_parse_snippet(code@) {
                    None => r == Err::<Vec<String>, ReplError>(ReplError::Parse) && final(
                        self).graph_model() == m,
                    Some(p) => match r {
                        Ok(aff) => {
                            &&& m.deps_known(p.1)
                            &&& final(self).graph_model() == m.updated(p.0, p.1)
                            &&& aff.deep_view() == final(self).graph_model().affected_names(
                                m.updated_slot(p.0),
                            )
                        },
                        Err(e) => {
                            &&& e == ReplError::Graph(GraphError::DepNotInGraph)
                            &&& !m.deps_known(p.1)
                            &&& final(self).graph_model() == m
                        },
                    },
                }
            }),
    {
        match parse_snippet(code) {
            None => Err(ReplError::Parse),
            Some((func, deps)) => match self.callgraph.update(func, &deps) {
                Ok(aff) => Ok(aff),
                Err(e) => Err(ReplError::Graph(e)),
            },
        }
    }

    /// Whether every one of the given names is in the call graph.
    pub fn graph_contains(&self, queries: &Vec<String>) -> (r: bool)
        requires
            self.wf(),
        ensures
            r == (forall|i: int|
                0 <= i < queries@.len() ==> self.graph_model().contains_name(
                    #[trigger] queries.deep_view()[i],
                )),
    {
        self.callgraph.contains(queries)
    }

    /// The names of the functions in the call graph, in insertion order.
    pub fn graph_fns(&self) -> (r: Vec<String>)
        requires
            self.wf(),
        ensures
            r.deep_view() == self.graph_model().live_names(),
    {
        self.callgraph.fns()
    }
}

} // verus!
