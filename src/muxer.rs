//! Synthesis of one calendar from the outcomes of a feed's sources.

use vstd::prelude::*;

use crate::config::{FeedConfig, FeedModel};
use crate::ical::{
    all_lines, component_models, parse_calendar, same_outcome, scrape_contents, text_lines, Component,
    ComponentModel, ParseError,
};

verus! {

/// Why fetching one source failed.
#[derive(Clone, Copy, Debug, PartialEq, Eq, Structural)]
pub enum FetchError {
    /// The connection or the transfer failed.
    Unreachable,
    /// The source did not answer before the deadline.
    Timeout,
    /// The source answered with a status other than success.
    BadStatus,
    /// The source's body is larger than allowed.
    TooLarge,
}

impl FetchError {
    /// A human-readable description of the error.
    pub fn message(&self) -> (r: String)
        ensures
            r@ == self.message_spec(),
    {
        match self {
            FetchError::Unreachable => String::from_str("the source could not be reached"),
            FetchError::Timeout => String::from_str("the source did not answer in time"),
            FetchError::BadStatus => String::from_str("the source answered with an error status"),
            FetchError::TooLarge => String::from_str("the source's calendar is too large"),
        }
    }

    pub open spec fn message_spec(&self) -> Seq<char> {
        match self {
            FetchError::Unreachable => "the source could not be reached"@,
            FetchError::Timeout => "the source did not answer in time"@,
            FetchError::BadStatus => "the source answered with an error status"@,
            FetchError::TooLarge => "the source's calendar is too large"@,
        }
    }
}

/// Why one source contributed nothing to its feed.
#[derive(Clone, Copy, Debug, PartialEq, Eq, Structural)]
pub enum SourceError {
    Fetch(FetchError),
    Parse(ParseError),
}

impl SourceError {
    /// A human-readable description of the error.
    pub fn message(&self) -> (r: String)
        ensures
            r@ == self.message_spec(),
    {
        match self {
            SourceError::Fetch(e) => e.message(),
            SourceError::Parse(e) => e.message(),
        }
    }

    pub open spec fn message_spec(&self) -> Seq<char> {
        match self {
            SourceError::Fetch(e) => e.message_spec(),
            SourceError::Parse(e) => e.message_spec(),
        }
    }
}

/// What became of one source of a feed.
#[derive(Clone, Debug)]
pub enum SourceOutcome {
    Parsed(Vec<Component>),
    Failed(SourceError),
}

pub type OutcomeModel = Result<Seq<ComponentModel>, SourceError>;

impl View for SourceOutcome {
    type V = OutcomeModel;

    open spec fn view(&self) -> OutcomeModel {
        match self {
            SourceOutcome::Parsed(cs) => Ok(component_models(cs@)),
            SourceOutcome::Failed(e) => Err(*e),
        }
    }
}

pub open spec fn outcome_models(v: Seq<SourceOutcome>) -> Seq<OutcomeModel> {
    v.map_values(|o: SourceOutcome| o@)
}

/// The components of the sources that were parsed, in source order.
pub open spec fn successes(os: Seq<OutcomeModel>) -> Seq<ComponentModel>
    decreases os.len(),
{
    if os.len() == 0 {
        Seq::empty()
    } else {
        successes(os.drop_last()) + match os.last() {
            Ok(cs) => cs,
            Err(_) => Seq::empty(),
        }
    }
}

/// The reasons of the sources that failed, in source order.
pub open spec fn failures(os: Seq<OutcomeModel>) -> Seq<SourceError>
    decreases os.len(),
{
    if os.len() == 0 {
        Seq::empty()
    } else {
        failures(os.drop_last()) + match os.last() {
            Ok(_) => Seq::empty(),
            Err(e) => seq![e],
        }
    }
}

/// How many sources were parsed.
pub open spec fn parsed_count(os: Seq<OutcomeModel>) -> nat
    decreases os.len(),
{
    if os.len() == 0 {
        0
    } else {
        parsed_count(os.drop_last()) + if os.last() is Ok { 1nat } else { 0nat }
    }
}

pub open spec fn crlf() -> Seq<char> {
    seq!['\r', '\n']
}

/// Lines written one after the other, each ended by CRLF.
pub open spec fn join_lines(ls: Seq<Seq<char>>) -> Seq<char>
    decreases ls.len(),
{
    if ls.len() == 0 {
        Seq::empty()
    } else {
        join_lines(ls.drop_last()) + ls.last() + crlf()
    }
}

/// The opening lines of a feed's calendar: the marker, the version, the
/// product identifier, then the name and the color where they are set.
pub open spec fn header_lines(name: Option<Seq<char>>, color: Seq<char>) -> Seq<Seq<char>> {
    seq!["BEGIN:VCALENDAR"@, "VERSION:2.0"@, "PRODID:-//calmuxd//CALMUXD 0.1.0//EN"@]
        + match name {
        Some(n) => seq!["X-WR-CALNAME:"@ + n],
        None => Seq::empty(),
    } + if color.len() > 0 {
        seq!["X-APPLE-CALENDAR-COLOR:"@ + color]
    } else {
        Seq::empty()
    }
}

/// The lines of a feed's calendar holding the components `cs`.
pub open spec fn calendar_lines(feed: FeedModel, cs: Seq<ComponentModel>) -> Seq<Seq<char>> {
    header_lines(feed.visual_name, feed.color) + all_lines(cs) + seq!["END:VCALENDAR"@]
}

/// The feed's calendar text for the outcomes `os`, or the reasons of all
/// sources when none was parsed.
pub open spec fn mux(feed: FeedModel, os: Seq<OutcomeModel>) -> Result<Seq<char>, Seq<SourceError>> {
    if parsed_count(os) == 0 {
        Err(failures(os))
    } else {
        Ok(join_lines(calendar_lines(feed, successes(os))))
    }
}

/// Why a feed could not be served.
#[derive(Clone, Debug)]
pub enum MuxError {
    /// No source of the feed was parsed; the reasons, in source order.
    AllSourcesFailed(Vec<SourceError>),
}

proof fn lemma_join_lines_append(a: Seq<Seq<char>>, b: Seq<Seq<char>>)
    ensures
        join_lines(a + b) == join_lines(a) + join_lines(b),
    decreases b.len(),
{
    if b.len() == 0 {
        assert(a + b =~= a);
        assert(join_lines(a) + join_lines(b) =~= join_lines(a));
    } else {
        assert((a + b).drop_last() =~= a + b.drop_last());
        lemma_join_lines_append(a, b.drop_last());
        assert(join_lines(a + b) =~= join_lines(a) + join_lines(b));
    }
}

proof fn lemma_all_lines_append(a: Seq<ComponentModel>, b: Seq<ComponentModel>)
    ensures
        all_lines(a + b) == all_lines(a) + all_lines(b),
    decreases b.len(),
{
    if b.len() == 0 {
        assert(a + b =~= a);
        assert(all_lines(a) + all_lines(b) =~= all_lines(a));
    } else {
        assert((a + b).drop_last() =~= a + b.drop_last());
        lemma_all_lines_append(a, b.drop_last());
        assert(all_lines(a + b) =~= all_lines(a) + all_lines(b));
    }
}

/// Appends one line and its CRLF.
fn push_line(out: &mut String, line: &str)
    ensures
        final(out)@ == old(out)@ + line@ + crlf(),
{
    out.append(line);
    out.append("\r\n");
    proof {
        reveal_strlit("\r\n");
        assert(final(out)@ =~= old(out)@ + line@ + crlf());
    }
}

fn push_lines(out: &mut String, lines: &Vec<String>)
    ensures
        final(out)@ == old(out)@ + join_lines(text_lines(lines@)),
{
    let ghost start = out@;
    let ghost ls = text_lines(lines@);
    assert(ls.take(0) =~= Seq::<Seq<char>>::empty());
    assert(start + join_lines(ls.take(0)) =~= start);
    for i in 0..lines.len()
        invariant
            ls == text_lines(lines@),
            out@ == start + join_lines(ls.take(i as int)),
    {
        push_line(out, lines[i].as_str());
        assert(ls.take(i + 1).drop_last() =~= ls.take(i as int));
        assert(out@ =~= start + join_lines(ls.take(i + 1)));
    }
    assert(ls.take(lines.len() as int) =~= ls);
}

fn push_components(out: &mut String, cs: &Vec<Component>)
    ensures
        final(out)@ == old(out)@ + join_lines(all_lines(component_models(cs@))),
{
    let ghost start = out@;
    let ghost ms = component_models(cs@);
    assert(ms.take(0) =~= Seq::<ComponentModel>::empty());
    assert(start + join_lines(all_lines(ms.take(0))) =~= start);
    for j in 0..cs.len()
        invariant
            ms == component_models(cs@),
            out@ == start + join_lines(all_lines(ms.take(j as int))),
    {
        push_lines(out, &cs[j].lines);
        proof {
            assert(ms.take(j + 1).drop_last() =~= ms.take(j as int));
            lemma_join_lines_append(all_lines(ms.take(j as int)), ms[j as int].lines);
            assert(out@ =~= start + join_lines(all_lines(ms.take(j + 1))));
        }
    }
    assert(ms.take(cs.len() as int) =~= ms);
}

/// Builds the feed's calendar from the outcomes of its sources, given in the
/// feed's URL order: generated header lines, then the components of every
/// parsed source in that order, then the closing marker. Fails when no
/// source was parsed.
pub fn formulate_calendar(feed: &FeedConfig, outcomes: &Vec<SourceOutcome>) -> (r: Result<
    String,
    MuxError,
>)
    ensures
        match (r, mux(feed@, outcome_models(outcomes@))) {
            (Ok(s), Ok(t)) => s@ == t,
            (Err(MuxError::AllSourcesFailed(f)), Err(g)) => f@ == g,
            _ => false,
        },
{
    let ghost os = outcome_models(outcomes@);
    let mut parsed: usize = 0;
    let mut failed: Vec<SourceError> = Vec::new();
    assert(os.take(0) =~= Seq::<OutcomeModel>::empty());
    for i in 0..outcomes.len()
        invariant
            os == outcome_models(outcomes@),
            parsed <= i,
            parsed == parsed_count(os.take(i as int)),
            failed@ == failures(os.take(i as int)),
    {
        assert(os.take(i + 1).drop_last() =~= os.take(i as int));
        match &outcomes[i] {
            SourceOutcome::Parsed(_) => {
                parsed = parsed + 1;
                assert(failed@ =~= failures(os.take(i + 1)));
            },
            SourceOutcome::Failed(e) => {
                failed.push(*e);
                assert(failed@ =~= failures(os.take(i + 1)));
            },
        }
    }
    assert(os.take(outcomes.len() as int) =~= os);
    if parsed == 0 {
        return Err(MuxError::AllSourcesFailed(failed));
    }
    let ghost header = header_lines(feed@.visual_name, feed@.color);
    let mut out = String::new();
    let ghost mut emitted: Seq<Seq<char>> = Seq::empty();
    assert(out@ =~= join_lines(emitted));
    push_line(&mut out, "BEGIN:VCALENDAR");
    proof {
        let e2 = emitted.push("BEGIN:VCALENDAR"@);
        assert(e2.drop_last() =~= emitted);
        emitted = e2;
        assert(out@ =~= join_lines(emitted));
    }
    push_line(&mut out, "VERSION:2.0");
    proof {
        let e2 = emitted.push("VERSION:2.0"@);
        assert(e2.drop_last() =~= emitted);
        emitted = e2;
        assert(out@ =~= join_lines(emitted));
    }
    push_line(&mut out, "PRODID:-//calmuxd//CALMUXD 0.1.0//EN");
    proof {
        let e2 = emitted.push("PRODID:-//calmuxd//CALMUXD 0.1.0//EN"@);
        assert(e2.drop_last() =~= emitted);
        emitted = e2;
        assert(out@ =~= join_lines(emitted));
    }
    match &feed.visual_name {
        Some(n) => {
            let line = String::from_str("X-WR-CALNAME:").concat(n.as_str());
            push_line(&mut out, line.as_str());
            proof {
                let e2 = emitted.push(line@);
                assert(e2.drop_last() =~= emitted);
                emitted = e2;
            assert(out@ =~= join_lines(emitted));
        assert(out@ =~= join_lines(emitted));
            }
        },
        None => {},
    }
    if feed.color.as_str().unicode_len() > 0 {
        let line = String::from_str("X-APPLE-CALENDAR-COLOR:").concat(feed.color.as_str());
        push_line(&mut out, line.as_str());
        proof {
            let e2 = emitted.push(line@);
            assert(e2.drop_last() =~= emitted);
            emitted = e2;
            assert(out@ =~= join_lines(emitted));
        assert(out@ =~= join_lines(emitted));
        }
    }
    assert(emitted =~= header);
    assert(successes(os.take(0)) =~= Seq::<ComponentModel>::empty());
    assert(all_lines(successes(os.take(0))) =~= Seq::<Seq<char>>::empty());
    assert(out@ =~= join_lines(header) + join_lines(all_lines(successes(os.take(0)))));
    for i in 0..outcomes.len()
        invariant
            os == outcome_models(outcomes@),
            out@ == join_lines(header) + join_lines(all_lines(successes(os.take(i as int)))),
    {
        assert(os.take(i + 1).drop_last() =~= os.take(i as int));
        match &outcomes[i] {
            SourceOutcome::Parsed(cs) => {
                push_components(&mut out, cs);
                proof {
                    lemma_all_lines_append(successes(os.take(i as int)), component_models(cs@));
                    lemma_join_lines_append(
                        all_lines(successes(os.take(i as int))),
                        all_lines(component_models(cs@)),
                    );
                }
            },
            SourceOutcome::Failed(_) => {
                assert(successes(os.take(i + 1)) =~= successes(os.take(i as int)));
            },
        }
    }
    push_line(&mut out, "END:VCALENDAR");
    proof {
        let body = all_lines(successes(os));
        let end = seq!["END:VCALENDAR"@];
        lemma_join_lines_append(header, body);
        lemma_join_lines_append(header + body, end);
        assert(end.drop_last() =~= Seq::<Seq<char>>::empty());
        assert(join_lines(end) =~= "END:VCALENDAR"@ + crlf());
        assert(out@ =~= join_lines(calendar_lines(feed@, successes(os))));
    }
    Ok(out)
}

/// How many sources failed, for the record of a feed that was served anyway.
pub fn count_failures(outcomes: &Vec<SourceOutcome>) -> (r: usize)
    ensures
        r == failures(outcome_models(outcomes@)).len(),
{
    let ghost os = outcome_models(outcomes@);
    let mut n: usize = 0;
    assert(os.take(0) =~= Seq::<OutcomeModel>::empty());
    for i in 0..outcomes.len()
        invariant
            os == outcome_models(outcomes@),
            n <= i,
            n == failures(os.take(i as int)).len(),
    {
        assert(os.take(i + 1).drop_last() =~= os.take(i as int));
        if let SourceOutcome::Failed(_) = &outcomes[i] {
            n = n + 1;
        }
    }
    assert(os.take(outcomes.len() as int) =~= os);
    n
}

// ---------------------------------------------------------------------------
// Sources

/// Whether a source's answer is usable: a success status (200 to 299) and
/// a body of at most `max_len` bytes.
pub open spec fn response_verdict(status: u16, body_len: nat, max_len: nat) -> Result<(), FetchError> {
    if status < 200 || status > 299 {
        Err(FetchError::BadStatus)
    } else if body_len > max_len {
        Err(FetchError::TooLarge)
    } else {
        Ok(())
    }
}

/// Classifies a source's answer by its status and the size of its body.
pub fn classify_response(status: u16, body_len: usize, max_len: usize) -> (r: Result<(), FetchError>)
    ensures
        r == response_verdict(status, body_len as nat, max_len as nat),
{
    if status < 200 || status > 299 {
        Err(FetchError::BadStatus)
    } else if body_len > max_len {
        Err(FetchError::TooLarge)
    } else {
        Ok(())
    }
}

/// What a fetch handed back: `None` when the deadline passed first.
pub open spec fn fetched_text(f: Option<Result<String, FetchError>>) -> Option<Result<Seq<char>, FetchError>> {
    match f {
        None => None,
        Some(Ok(t)) => Some(Ok(t@)),
        Some(Err(e)) => Some(Err(e)),
    }
}

/// The outcome of a source from what its fetch handed back.
pub open spec fn outcome_of(f: Option<Result<Seq<char>, FetchError>>) -> OutcomeModel {
    match f {
        None => Err(SourceError::Fetch(FetchError::Timeout)),
        Some(Err(e)) => Err(SourceError::Fetch(e)),
        Some(Ok(t)) => match parse_calendar(t) {
            Ok(cs) => Ok(cs),
            Err(p) => Err(SourceError::Parse(p)),
        },
    }
}

/// Parses what one fetch handed back; a missing result counts as a timeout.
pub fn source_outcome(fetched: &Option<Result<String, FetchError>>) -> (r: SourceOutcome)
    ensures
        r@ == outcome_of(fetched_text(*fetched)),
{
    match fetched {
        None => SourceOutcome::Failed(SourceError::Fetch(FetchError::Timeout)),
        Some(Err(e)) => SourceOutcome::Failed(SourceError::Fetch(*e)),
        Some(Ok(text)) => match scrape_contents(text.as_str()) {
            Ok(cs) => SourceOutcome::Parsed(cs),
            Err(p) => SourceOutcome::Failed(SourceError::Parse(p)),
        },
    }
}

/// The outcomes of a feed's sources, slot `i` from what the fetch of URL `i`
/// handed back, whatever order the fetches finished in.
pub fn collect_outcomes(fetched: &Vec<Option<Result<String, FetchError>>>) -> (r: Vec<SourceOutcome>)
    ensures
        r.len() == fetched.len(),
        forall|i: int| 0 <= i < r.len() ==> #[trigger] r[i]@ == outcome_of(fetched_text(fetched[i])),
{
    let mut out: Vec<SourceOutcome> = Vec::new();
    for i in 0..fetched.len()
        invariant
            out.len() == i,
            forall|k: int| 0 <= k < i ==> #[trigger] out[k]@ == outcome_of(fetched_text(fetched[k])),
    {
        out.push(source_outcome(&fetched[i]));
    }
    out
}

// ---------------------------------------------------------------------------
// Responses

/// What the feed's endpoint answers.
#[derive(Clone, Debug)]
pub struct FeedResponse {
    pub status: u16,
    pub content_type: String,
    pub body: String,
}

/// Whether every reason is a failure to fetch (none a failure to parse).
pub open spec fn all_fetch_failures(fs: Seq<SourceError>) -> bool {
    forall|i: int| 0 <= i < fs.len() ==> #[trigger] fs[i] is Fetch
}

/// The report of a feed whose sources all failed: a first line, then one
/// line per source.
pub open spec fn failure_report(fs: Seq<SourceError>) -> Seq<char> {
    join_lines(seq!["every source of this feed failed"@] + fs.map_values(|e: SourceError| e.message_spec()))
}

/// The answer to a request for the feed, from the outcomes of its sources:
/// 200 with the calendar, or, when every source failed, 502 where all of
/// them failed to fetch and 400 otherwise, with a plain-text report.
pub fn feed_response(feed: &FeedConfig, outcomes: &Vec<SourceOutcome>) -> (r: FeedResponse)
    ensures
        match mux(feed@, outcome_models(outcomes@)) {
            Ok(t) => r.status == 200 && r.content_type@ == "text/calendar"@ && r.body@ == t,
            Err(fs) => r.status == (if all_fetch_failures(fs) { 502u16 } else { 400u16 })
                && r.content_type@ == "text/plain"@ && r.body@ == failure_report(fs),
        },
{
    match formulate_calendar(feed, outcomes) {
        Ok(body) => FeedResponse { status: 200, content_type: String::from_str("text/calendar"), body },
        Err(MuxError::AllSourcesFailed(fs)) => {
            let ghost msgs = fs@.map_values(|e: SourceError| e.message_spec());
            let mut body = String::new();
            push_line(&mut body, "every source of this feed failed");
            let ghost first = seq!["every source of this feed failed"@];
            assert(first.drop_last() =~= Seq::<Seq<char>>::empty());
            assert(first + msgs.take(0) =~= first);
            assert(first.last() == "every source of this feed failed"@);
            assert(join_lines(first.drop_last()) =~= Seq::<char>::empty());
            assert(join_lines(first) =~= "every source of this feed failed"@ + crlf());
            assert(body@ =~= join_lines(first + msgs.take(0)));
            let mut only_fetch = true;
            for i in 0..fs.len()
                invariant
                    msgs == fs@.map_values(|e: SourceError| e.message_spec()),
                    body@ == join_lines(first + msgs.take(i as int)),
                    only_fetch == forall|k: int| 0 <= k < i ==> #[trigger] fs@[k] is Fetch,
            {
                let m = fs[i].message();
                push_line(&mut body, m.as_str());
                assert((first + msgs.take(i + 1)).drop_last() =~= first + msgs.take(i as int));
                if let SourceError::Parse(_) = fs[i] {
                    only_fetch = false;
                }
            }
            assert(msgs.take(fs.len() as int) =~= msgs);
            let status: u16 = if only_fetch { 502 } else { 400 };
            FeedResponse { status, content_type: String::from_str("text/plain"), body }
        },
    }
}

// ---------------------------------------------------------------------------
// Laws of muxing

proof fn lemma_successes_append(a: Seq<OutcomeModel>, b: Seq<OutcomeModel>)
    ensures
        successes(a + b) == successes(a) + successes(b),
    decreases b.len(),
{
    if b.len() == 0 {
        assert(a + b =~= a);
        assert(successes(a) + successes(b) =~= successes(a));
    } else {
        assert((a + b).drop_last() =~= a + b.drop_last());
        lemma_successes_append(a, b.drop_last());
        assert(successes(a + b) =~= successes(a) + successes(b));
    }
}

proof fn lemma_parsed_count_positive(os: Seq<OutcomeModel>, i: int)
    requires
        0 <= i < os.len(),
        os[i] is Ok,
    ensures
        parsed_count(os) > 0,
    decreases os.len(),
{
    if i < os.len() - 1 {
        lemma_parsed_count_positive(os.drop_last(), i);
    }
}

proof fn lemma_no_success(os: Seq<OutcomeModel>)
    requires
        forall|i: int| 0 <= i < os.len() ==> #[trigger] os[i] is Err,
    ensures
        parsed_count(os) == 0,
        failures(os).len() == os.len(),
    decreases os.len(),
{
    if os.len() > 0 {
        lemma_no_success(os.drop_last());
    }
}

/// When some source was parsed, the feed's calendar holds the components of
/// every parsed source, each source's whole and in its own order, after
/// those of the sources before it and before those of the sources after it;
/// failed sources add nothing.
pub proof fn mux_keeps_successes_in_source_order(feed: FeedModel, os: Seq<OutcomeModel>, i: int)
    requires
        0 <= i < os.len(),
        os[i] is Ok,
    ensures
        mux(feed, os) == Ok::<Seq<char>, Seq<SourceError>>(
            join_lines(calendar_lines(feed, successes(os))),
        ),
        successes(os) == successes(os.take(i)) + os[i]->Ok_0 + successes(os.skip(i + 1)),
{
    lemma_parsed_count_positive(os, i);
    let one = seq![os[i]];
    assert(os =~= os.take(i) + one + os.skip(i + 1));
    lemma_successes_append(os.take(i) + one, os.skip(i + 1));
    lemma_successes_append(os.take(i), one);
    assert(one.drop_last() =~= Seq::<OutcomeModel>::empty());
    assert(successes(one.drop_last()) =~= Seq::<ComponentModel>::empty());
    assert(successes(one) =~= Seq::<ComponentModel>::empty() + os[i]->Ok_0);
    assert(successes(one) =~= os[i]->Ok_0);
}

/// When no source was parsed, muxing fails with the reason of every source,
/// never with an empty calendar.
pub proof fn mux_without_success_fails(feed: FeedModel, os: Seq<OutcomeModel>)
    requires
        forall|i: int| 0 <= i < os.len() ==> #[trigger] os[i] is Err,
    ensures
        mux(feed, os) == Err::<Seq<char>, Seq<SourceError>>(failures(os)),
        failures(os).len() == os.len(),
{
    lemma_no_success(os);
}

} // verus!
