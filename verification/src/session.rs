//! The pure decision logic of the per-round session protocol.
//!
//! One round runs: VISOR writes the snippet bytes on the code pipe (clipped
//! to `CODEBUF_SIZE`), TRY reads and executes them, and exactly one verdict
//! message comes back on the reply pipe — `success` written by TRY when the
//! snippet returned, `failed` written by CUR when the TRY process died. The
//! functions here compute the messages and decisions of that round; the
//! process and pipe work itself lives outside the library.

use vstd::prelude::*;

verus! {

/// Maximum number of bytes of one snippet message on the code pipe.
pub const CODEBUF_SIZE: usize = 4096;

/// Maximum number of bytes of one verdict message on the reply pipe.
pub const REPLY_SIZE: usize = 32;

/// The outcome of one round, as VISOR records it.
#[derive(Clone, Copy, Debug, PartialEq, Eq, Structural)]
pub enum Verdict {
    /// The snippet returned from execution: its effects are kept.
    Committed,
    /// The executing process died: every effect is rolled back.
    Failed,
}

/// What happened to the TRY process of a round.
#[derive(Clone, Copy, Debug, PartialEq, Eq, Structural)]
pub enum RoundOutcome {
    /// The snippet returned normally; TRY becomes the new CUR.
    Returned,
    /// The TRY process died; CUR survives unchanged.
    Died,
}

/// The verdict VISOR must record for a round outcome.
pub open spec fn spec_round_verdict(o: RoundOutcome) -> Verdict {
    match o {
        RoundOutcome::Returned => Verdict::Committed,
        RoundOutcome::Died => Verdict::Failed,
    }
}

/// The message sent on the reply pipe for a round outcome.
pub open spec fn spec_reply_message(o: RoundOutcome) -> Seq<char> {
    match o {
        RoundOutcome::Returned => "success"@,
        RoundOutcome::Died => "failed"@,
    }
}

/// How VISOR reads a reply-pipe message: any message other than the two
/// literals is a fatal protocol error.
pub open spec fn spec_parse_reply(s: Seq<char>) -> Option<Verdict> {
    if s == "success"@ {
        Some(Verdict::Committed)
    } else if s == "failed"@ {
        Some(Verdict::Failed)
    } else {
        None
    }
}

/// The message a round writes on the reply pipe.
pub fn reply_message(o: RoundOutcome) -> (s: &'static str)
    ensures
        s@ == spec_reply_message(o),
        s@.len() < REPLY_SIZE,
{
    proof {
        reveal_strlit("success");
        reveal_strlit("failed");
    }
    match o {
        RoundOutcome::Returned => "success",
        RoundOutcome::Died => "failed",
    }
}

/// Reads a reply-pipe message back into a verdict.
pub fn parse_reply(reply: &str) -> (r: Option<Verdict>)
    ensures
        r == spec_parse_reply(reply@),
{
    let owned = reply.to_owned();
    if owned == "success".to_owned() {
        Some(Verdict::Committed)
    } else if owned == "failed".to_owned() {
        Some(Verdict::Failed)
    } else {
        None
    }
}

/// What the verdict of a round is, end to end: the message a round outcome
/// puts on the reply pipe parses back to exactly the verdict of that
/// outcome.
pub proof fn lemma_reply_round_trip(o: RoundOutcome)
    ensures
        spec_parse_reply(spec_reply_message(o)) == Some(spec_round_verdict(o)),
{
    reveal_strlit("success");
    reveal_strlit("failed");
    assert("failed"@.len() != "success"@.len());
}

/// The verdict sequence of a session: one verdict per round, in round order.
pub open spec fn spec_session_verdicts(outcomes: Seq<RoundOutcome>) -> Seq<Verdict> {
    outcomes.map_values(|o: RoundOutcome| spec_round_verdict(o))
}

/// Verdict matching: for every snippet dispatched — one per round — exactly
/// one verdict is received, the verdicts arrive in dispatch order, and each
/// wire message parses back to the verdict of its own round.
pub proof fn lemma_verdict_matching(outcomes: Seq<RoundOutcome>)
    ensures
        spec_session_verdicts(outcomes).len() == outcomes.len(),
        forall|i: int|
            0 <= i < outcomes.len() ==> spec_session_verdicts(outcomes)[i] == spec_round_verdict(
                #[trigger] outcomes[i],
            ),
        forall|i: int|
            0 <= i < outcomes.len() ==> spec_parse_reply(
                spec_reply_message(#[trigger] outcomes[i]),
            ) == Some(spec_session_verdicts(outcomes)[i]),
{
    assert forall|i: int|
        0 <= i < outcomes.len() implies spec_parse_reply(spec_reply_message(#[trigger] outcomes[i]))
        == Some(spec_session_verdicts(outcomes)[i]) by {
        lemma_reply_round_trip(outcomes[i]);
    }
}

/// What TRY does with the result of a blocking read on the code pipe.
#[derive(Clone, Copy, Debug, PartialEq, Eq, Structural)]
pub enum ReadStep {
    /// The read failed: the session is corrupt.
    Fatal,
    /// Zero bytes on a blocking pipe: the writer closed; exit cleanly.
    EofExit,
    /// A snippet arrived; run it.
    Run,
}

/// How TRY disposes of a read result.
pub open spec fn spec_read_disposition(bytes_read: i64) -> ReadStep {
    if bytes_read < 0 {
        ReadStep::Fatal
    } else if bytes_read == 0 {
        ReadStep::EofExit
    } else {
        ReadStep::Run
    }
}

/// Decides what to do with the result of the code-pipe read.
pub fn read_disposition(bytes_read: i64) -> (r: ReadStep)
    ensures
        r == spec_read_disposition(bytes_read),
{
    if bytes_read < 0 {
        ReadStep::Fatal
    } else if bytes_read == 0 {
        ReadStep::EofExit
    } else {
        ReadStep::Run
    }
}

/// The bytes VISOR puts on the code pipe for one snippet: the line's bytes,
/// clipped to the fixed buffer size.
pub fn clip_message(bytes: &Vec<u8>) -> (r: Vec<u8>)
    ensures
        r@ == if bytes@.len() <= CODEBUF_SIZE {
            bytes@
        } else {
            bytes@.take(CODEBUF_SIZE as int)
        },
        r@.len() <= CODEBUF_SIZE,
{
    let limit = if bytes.len() <= CODEBUF_SIZE {
        bytes.len()
    } else {
        CODEBUF_SIZE
    };
    let mut r: Vec<u8> = Vec::new();
    let mut i: usize = 0;
    while i < limit
        invariant
            i <= limit,
            limit <= bytes@.len(),
            r@ =~= bytes@.take(i as int),
        decreases limit - i,
    {
        r.push(bytes[i]);
        proof {
            assert(r@ =~= bytes@.take(i + 1));
        }
        i += 1;
    }
    proof {
        if bytes@.len() <= CODEBUF_SIZE {
            assert(r@ =~= bytes@);
        }
    }
    r
}

/// The snippet bytes TRY hands to the compiler: the first `count` bytes of
/// the read buffer — trailing bytes are not part of the source.
pub fn received_payload(buf: &Vec<u8>, count: usize) -> (r: Vec<u8>)
    requires
        count <= buf@.len(),
    ensures
        r@ == buf@.take(count as int),
{
    let mut r: Vec<u8> = Vec::new();
    let mut i: usize = 0;
    while i < count
        invariant
            i <= count,
            count <= buf@.len(),
            r@ =~= buf@.take(i as int),
        decreases count - i,
    {
        r.push(buf[i]);
        proof {
            assert(r@ =~= buf@.take(i + 1));
        }
        i += 1;
    }
    r
}

} // verus!
