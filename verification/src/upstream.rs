//! The upstream abstraction and a deterministic mock implementation. The engine
//! only ever talks to an `Upstream`, so tests inject a scripted mock and no real
//! sockets are involved anywhere in the test suite.

use std::collections::VecDeque;

use vstd::prelude::*;
use vstd::string::*;

use crate::http::phrase;
use crate::http::MethodView;
use crate::http::Request;
use crate::http::RequestView;
use crate::http::Response;
use crate::http::ResponseView;
use crate::text::append_decimal;
use crate::text::decimal;
use crate::text::IntoText;

verus! {

#[derive(Clone, Copy, Debug, PartialEq, Eq, Structural)]
pub enum UpstreamError {
    /// The upstream did not answer in time.
    Timeout,
    /// The connection could not be established.
    Connection,
    /// The upstream answered with a server error status.
    ServerError(u16),
}

impl UpstreamError {
    pub open spec fn text(self) -> Seq<char> {
        match self {
            UpstreamError::Timeout => "timeout"@,
            UpstreamError::Connection => "connection refused"@,
            UpstreamError::ServerError(status) => "server error "@ + decimal(status as nat),
        }
    }

    /// The error in words.
    pub fn message(&self) -> (text: String)
        ensures
            text@ == self.text(),
    {
        match self {
            UpstreamError::Timeout => "timeout".to_owned(),
            UpstreamError::Connection => "connection refused".to_owned(),
            UpstreamError::ServerError(status) => {
                let mut text: String = "server error ".to_owned();
                append_decimal(&mut text, *status as u32);
                text
            },
        }
    }
}

/// Result of one call to an upstream, carrying a simulated latency so callers
/// can report and reason about it.
#[derive(Debug)]
pub struct UpstreamReply {
    pub outcome: Result<Response, UpstreamError>,
    pub latency_ms: u64,
}

impl Clone for UpstreamReply {
    fn clone(&self) -> (copy: Self)
        ensures
            copy@ == self@,
    {
        UpstreamReply {
            outcome: match &self.outcome {
                Ok(resp) => Ok(resp.clone()),
                Err(e) => Err(*e),
            },
            latency_ms: self.latency_ms,
        }
    }
}

/// A reply apart from how its response is stored.
#[verifier::ext_equal]
pub struct ReplyView {
    pub outcome: Result<ResponseView, UpstreamError>,
    pub latency_ms: u64,
}

impl View for UpstreamReply {
    type V = ReplyView;

    open spec fn view(&self) -> ReplyView {
        ReplyView {
            outcome: match self.outcome {
                Ok(resp) => Ok(resp@),
                Err(e) => Err(e),
            },
            latency_ms: self.latency_ms,
        }
    }
}

impl ReplyView {
    /// Whether a probe that got this reply found the upstream live.
    pub open spec fn is_live(self) -> bool {
        match self.outcome {
            Ok(resp) => resp.status < 500,
            Err(_) => false,
        }
    }
}

impl UpstreamReply {
    pub fn is_ok(&self) -> (ok: bool)
        ensures
            ok == self@.outcome is Ok,
    {
        self.outcome.is_ok()
    }
}

/// A backend the proxy can send a request to. Implementors decide how a request
/// is answered, and state with `answers` and `probed` what an answer may be.
pub trait Upstream {
    /// The upstream can take one more call.
    spec fn ready(&self) -> bool;

    /// From this state the upstream may answer `req` with `reply`, and is then
    /// in the state `post`.
    spec fn answers(&self, req: RequestView, reply: ReplyView, post: &Self) -> bool;

    /// From this state the upstream may answer a probe with `live`, and is then
    /// in the state `post`.
    spec fn probed(&self, live: bool, post: &Self) -> bool;

    fn send(&mut self, req: &Request) -> (reply: UpstreamReply)
        requires
            old(self).ready(),
        ensures
            old(self).answers(req@, reply@, final(self)),
    ;

    /// Active health probe. Returns true when the upstream is considered live.
    /// An upstream without a cheaper way to tell answers with [`head_probe`].
    fn probe(&mut self) -> (live: bool)
        requires
            old(self).ready(),
        ensures
            old(self).probed(live, final(self)),
    ;
}

impl<U: Upstream + ?Sized> Upstream for Box<U> {
    open spec fn ready(&self) -> bool {
        (**self).ready()
    }

    open spec fn answers(&self, req: RequestView, reply: ReplyView, post: &Self) -> bool {
        (**self).answers(req, reply, &**post)
    }

    open spec fn probed(&self, live: bool, post: &Self) -> bool {
        (**self).probed(live, &**post)
    }

    fn send(&mut self, req: &Request) -> (reply: UpstreamReply) {
        (**self).send(req)
    }

    fn probe(&mut self) -> (live: bool) {
        (**self).probe()
    }
}

/// The request that a HEAD style probe sends.
pub open spec fn probe_request() -> RequestView {
    RequestView::bare(MethodView::Head, "/healthz"@)
}

/// What a HEAD style probe of an upstream may find.
pub open spec fn head_probed<U: Upstream + ?Sized>(pre: &U, live: bool, post: &U) -> bool {
    exists|reply: ReplyView| #[trigger]
        pre.answers(probe_request(), reply, post) && live == reply.is_live()
}

/// Probe an upstream by sending it the health probe request: it is live when it
/// answers without a server error.
pub fn head_probe<U: Upstream + ?Sized>(upstream: &mut U) -> (live: bool)
    requires
        old(upstream).ready(),
    ensures
        head_probed(old(upstream), live, final(upstream)),
{
    let reply: UpstreamReply = upstream.send(&Request::probe());
    assert(old(upstream).answers(probe_request(), reply@, upstream));
    match reply.outcome {
        Ok(resp) => !resp.is_server_error(),
        Err(_) => false,
    }
}

/// One scripted step for the mock. `Ok(status)` returns that status,
/// `Err(kind)` returns that error.
#[derive(Clone, Copy, Debug)]
pub struct Step {
    pub outcome: Result<u16, UpstreamError>,
    pub latency_ms: u64,
}

impl Step {
    pub fn ok(status: u16) -> (step: Self)
        ensures
            step == (Step { outcome: Ok(status), latency_ms: 5 }),
    {
        Step { outcome: Ok(status), latency_ms: 5 }
    }

    pub fn ok_slow(status: u16, latency_ms: u64) -> (step: Self)
        ensures
            step == (Step { outcome: Ok(status), latency_ms }),
    {
        Step { outcome: Ok(status), latency_ms }
    }

    pub fn fail(err: UpstreamError) -> (step: Self)
        ensures
            step == (Step { outcome: Err(err), latency_ms: 5 }),
    {
        Step { outcome: Err(err), latency_ms: 5 }
    }

    /// The reply that an upstream of that name plays for the step: a server
    /// error status is an error, any other status a response that carries the
    /// name as its body.
    pub open spec fn played_by(self, name: Seq<char>) -> ReplyView {
        ReplyView {
            outcome: match self.outcome {
                Ok(status) => if status >= 500 {
                    Err(UpstreamError::ServerError(status))
                } else {
                    Ok(
                        ResponseView {
                            body: vstd::utf8::encode_utf8(name),
                            ..ResponseView::bare(status)
                        },
                    )
                },
                Err(e) => Err(e),
            },
            latency_ms: self.latency_ms,
        }
    }
}

/// A deterministic mock upstream. Responses come from a scripted queue, and once
/// the queue is empty the `default` step repeats forever. Health probe results
/// come from their own queue with their own default.
pub struct MockUpstream {
    name: String,
    script: VecDeque<Step>,
    default: Step,
    probes: VecDeque<bool>,
    probe_default: bool,
    calls: u64,
    probe_calls: u64,
}

/// What a mock will play and what it has been asked so far.
#[verifier::ext_equal]
pub struct MockView {
    pub name: Seq<char>,
    pub script: Seq<Step>,
    pub fallback: Step,
    pub probes: Seq<bool>,
    pub probe_fallback: bool,
    pub calls: nat,
    pub probe_calls: nat,
}

impl MockView {
    /// A mock that answers everything with a plain 200.
    pub open spec fn named(name: Seq<char>) -> MockView {
        MockView {
            name,
            script: Seq::empty(),
            fallback: Step { outcome: Ok(200), latency_ms: 5 },
            probes: Seq::empty(),
            probe_fallback: true,
            calls: 0,
            probe_calls: 0,
        }
    }

    pub open spec fn next_step(self) -> Step {
        if self.script.len() > 0 {
            self.script[0]
        } else {
            self.fallback
        }
    }

    pub open spec fn after_step(self) -> MockView {
        MockView {
            script: if self.script.len() > 0 {
                self.script.drop_first()
            } else {
                self.script
            },
            ..self
        }
    }

    pub open spec fn after_send(self) -> MockView {
        MockView { calls: self.calls + 1, ..self.after_step() }
    }

    pub open spec fn next_probe(self) -> bool {
        if self.probes.len() > 0 {
            self.probes[0]
        } else {
            self.probe_fallback
        }
    }

    pub open spec fn after_probe(self) -> MockView {
        MockView {
            probes: if self.probes.len() > 0 {
                self.probes.drop_first()
            } else {
                self.probes
            },
            probe_calls: self.probe_calls + 1,
            ..self
        }
    }

    pub open spec fn after_sends(self, n: nat) -> MockView
        decreases n,
    {
        if n == 0 {
            self
        } else {
            self.after_sends((n - 1) as nat).after_send()
        }
    }

    pub open spec fn after_probes(self, n: nat) -> MockView
        decreases n,
    {
        if n == 0 {
            self
        } else {
            self.after_probes((n - 1) as nat).after_probe()
        }
    }
}

impl View for MockUpstream {
    type V = MockView;

    closed spec fn view(&self) -> MockView {
        MockView {
            name: self.name@,
            script: self.script@,
            fallback: self.default,
            probes: self.probes@,
            probe_fallback: self.probe_default,
            calls: self.calls as nat,
            probe_calls: self.probe_calls as nat,
        }
    }
}

impl MockUpstream {
    pub fn new<N: IntoText>(name: N) -> (mock: Self)
        ensures
            mock@ == MockView::named(name.text()),
    {
        Self {
            name: name.into_text(),
            script: VecDeque::new(),
            default: Step::ok(200),
            probes: VecDeque::new(),
            probe_default: true,
            calls: 0,
            probe_calls: 0,
        }
    }

    /// Always healthy, always 200.
    pub fn healthy<N: IntoText>(name: N) -> (mock: Self)
        ensures
            mock@ == MockView::named(name.text()),
    {
        MockUpstream::new(name)
    }

    /// Always fails request and probe with the given error.
    pub fn always_failing<N: IntoText>(name: N, err: UpstreamError) -> (mock: Self)
        ensures
            mock@ == (MockView {
                fallback: Step { outcome: Err(err), latency_ms: 5 },
                probe_fallback: false,
                ..MockView::named(name.text())
            }),
    {
        let mut mock: MockUpstream = MockUpstream::new(name);
        mock.default = Step::fail(err);
        mock.probe_default = false;
        mock
    }

    pub fn with_default(self, step: Step) -> (mock: Self)
        ensures
            mock@ == (MockView { fallback: step, ..self@ }),
    {
        let mut mock: MockUpstream = self;
        mock.default = step;
        mock
    }

    pub fn with_probe_default(self, live: bool) -> (mock: Self)
        ensures
            mock@ == (MockView { probe_fallback: live, ..self@ }),
    {
        let mut mock: MockUpstream = self;
        mock.probe_default = live;
        mock
    }

    pub fn push(&mut self, step: Step)
        ensures
            final(self)@ == (MockView { script: old(self)@.script.push(step), ..old(self)@ }),
    {
        self.script.push_back(step);
    }

    pub fn push_many(&mut self, steps: Vec<Step>)
        ensures
            final(self)@ == (MockView { script: old(self)@.script + steps@, ..old(self)@ }),
    {
        let mut i: usize = 0;
        assert(old(self)@.script + steps@.take(0) =~= self@.script);
        while i < steps.len()
            invariant
                i <= steps@.len(),
                self@ == (MockView {
                    script: old(self)@.script + steps@.take(i as int),
                    ..old(self)@
                }),
            decreases steps@.len() - i,
        {
            self.push(steps[i]);
            assert(old(self)@.script + steps@.take(i + 1) =~= (old(self)@.script + steps@.take(
                i as int,
            )).push(steps@[i as int]));
            i += 1;
        }
        assert(steps@.take(steps@.len() as int) =~= steps@);
    }

    pub fn push_probe(&mut self, live: bool)
        ensures
            final(self)@ == (MockView { probes: old(self)@.probes.push(live), ..old(self)@ }),
    {
        self.probes.push_back(live);
    }

    pub fn push_probes(&mut self, results: Vec<bool>)
        ensures
            final(self)@ == (MockView { probes: old(self)@.probes + results@, ..old(self)@ }),
    {
        let mut i: usize = 0;
        assert(old(self)@.probes + results@.take(0) =~= self@.probes);
        while i < results.len()
            invariant
                i <= results@.len(),
                self@ == (MockView {
                    probes: old(self)@.probes + results@.take(i as int),
                    ..old(self)@
                }),
            decreases results@.len() - i,
        {
            self.push_probe(results[i]);
            assert(old(self)@.probes + results@.take(i + 1) =~= (old(self)@.probes + results@.take(
                i as int,
            )).push(results@[i as int]));
            i += 1;
        }
        assert(results@.take(results@.len() as int) =~= results@);
    }

    pub fn name(&self) -> (name: &str)
        ensures
            name@ == self@.name,
    {
        self.name.as_str()
    }

    pub fn calls(&self) -> (calls: u64)
        ensures
            calls == self@.calls,
    {
        self.calls
    }

    pub fn probe_calls(&self) -> (calls: u64)
        ensures
            calls == self@.probe_calls,
    {
        self.probe_calls
    }

    fn next_step(&mut self) -> (step: Step)
        ensures
            step == old(self)@.next_step(),
            final(self)@ == old(self)@.after_step(),
    {
        match self.script.pop_front() {
            Some(step) => {
                assert(self@ =~= old(self)@.after_step());
                step
            },
            None => self.default,
        }
    }
}

impl Upstream for MockUpstream {
    open spec fn ready(&self) -> bool {
        self@.calls < u64::MAX && self@.probe_calls < u64::MAX
    }

    open spec fn answers(&self, req: RequestView, reply: ReplyView, post: &Self) -> bool {
        &&& reply == self@.next_step().played_by(self@.name)
        &&& post@ == self@.after_send()
    }

    open spec fn probed(&self, live: bool, post: &Self) -> bool {
        &&& live == self@.next_probe()
        &&& post@ == self@.after_probe()
    }

    fn send(&mut self, req: &Request) -> (reply: UpstreamReply) {
        self.calls = self.calls + 1;
        let step: Step = self.next_step();
        let outcome: Result<Response, UpstreamError> = match step.outcome {
            Ok(status) => if status >= 500 {
                Err(UpstreamError::ServerError(status))
            } else {
                Ok(Response::new(status).with_body(self.name.as_str()))
            },
            Err(e) => Err(e),
        };
        UpstreamReply { outcome, latency_ms: step.latency_ms }
    }

    fn probe(&mut self) -> (live: bool) {
        self.probe_calls = self.probe_calls + 1;
        match self.probes.pop_front() {
            Some(live) => {
                assert(self@ =~= old(self)@.after_probe());
                live
            },
            None => self.probe_default,
        }
    }
}

/// A mock plays its script step by step and then its default step forever, and
/// counts every call.
pub proof fn law_mock_plays_script_then_default(m: MockView, n: nat)
    ensures
        m.after_sends(n).next_step() == (if n < m.script.len() {
            m.script[n as int]
        } else {
            m.fallback
        }),
        m.after_sends(n).calls == m.calls + n,
        m.after_sends(n).probes == m.probes,
        m.after_sends(n).name == m.name,
        m.after_sends(n).fallback == m.fallback,
        m.after_sends(n).probe_fallback == m.probe_fallback,
        m.after_sends(n).probe_calls == m.probe_calls,
        m.after_sends(n).script == (if n < m.script.len() {
            m.script.skip(n as int)
        } else {
            Seq::empty()
        }),
    decreases n,
{
    if n == 0 {
        assert(m.script.skip(0) =~= m.script);
        assert(m.script.len() == 0 ==> m.script =~= Seq::empty());
    } else {
        law_mock_plays_script_then_default(m, (n - 1) as nat);
        let before = m.after_sends((n - 1) as nat);
        if n - 1 < m.script.len() {
            assert(before.script.drop_first() =~= m.script.skip(n as int));
            assert(n == m.script.len() ==> m.script.skip(n as int) =~= Seq::empty());
        }
    }
}

/// Probe results come from their own queue with their own default, and probing
/// leaves the script alone.
pub proof fn law_mock_plays_probes_then_default(m: MockView, n: nat)
    ensures
        m.after_probes(n).next_probe() == (if n < m.probes.len() {
            m.probes[n as int]
        } else {
            m.probe_fallback
        }),
        m.after_probes(n).probe_calls == m.probe_calls + n,
        m.after_probes(n).script == m.script,
        m.after_probes(n).calls == m.calls,
        m.after_probes(n).name == m.name,
        m.after_probes(n).fallback == m.fallback,
        m.after_probes(n).probe_fallback == m.probe_fallback,
        m.after_probes(n).probes == (if n < m.probes.len() {
            m.probes.skip(n as int)
        } else {
            Seq::empty()
        }),
    decreases n,
{
    if n == 0 {
        assert(m.probes.skip(0) =~= m.probes);
        assert(m.probes.len() == 0 ==> m.probes =~= Seq::empty());
    } else {
        law_mock_plays_probes_then_default(m, (n - 1) as nat);
        let before = m.after_probes((n - 1) as nat);
        if n - 1 < m.probes.len() {
            assert(before.probes.drop_first() =~= m.probes.skip(n as int));
            assert(n == m.probes.len() ==> m.probes.skip(n as int) =~= Seq::empty());
        }
    }
}

/// A mock plays a status below 500 as a response with that status and the name of the
/// mock as its body, any other status as a server error, and an error as itself. The
/// latency is that of the step.
pub proof fn law_mock_plays_the_step(step: Step, name: Seq<char>)
    ensures
        ({
            let reply = step.played_by(name);
            &&& reply.latency_ms == step.latency_ms
            &&& match step.outcome {
                Ok(status) => if status < 500 {
                    reply.outcome matches Ok(resp) && {
                        &&& resp.status == status
                        &&& resp.reason == phrase(status)
                        &&& resp.headers.len() == 0
                        &&& resp.body == vstd::utf8::encode_utf8(name)
                    }
                } else {
                    reply.outcome == Err::<ResponseView, UpstreamError>(
                        UpstreamError::ServerError(status),
                    )
                },
                Err(e) => reply.outcome == Err::<ResponseView, UpstreamError>(e),
            }
        }),
{
}

/// A new mock answers every call with a plain 200 after five milliseconds and every
/// probe as live, and has not been called.
pub proof fn law_new_mock_answers_everything(name: Seq<char>, n: nat)
    ensures
        ({
            let m = MockView::named(name);
            &&& m.name == name && m.calls == 0 && m.probe_calls == 0
            &&& m.after_sends(n).next_step() == (Step { outcome: Ok(200), latency_ms: 5 })
            &&& m.after_probes(n).next_probe()
        }),
{
    law_mock_plays_script_then_default(MockView::named(name), n);
    law_mock_plays_probes_then_default(MockView::named(name), n);
}

/// A reply shows an upstream live exactly when it is a response without a server error.
/// A probe by request asks for the head of the health path with nothing else.
pub proof fn law_probe_finds_live_without_server_error(reply: ReplyView)
    ensures
        reply.is_live() <==> (reply.outcome matches Ok(resp) && resp.status < 500),
        probe_request().method is Head,
        probe_request().path == "/healthz"@,
        probe_request().version == "HTTP/1.1"@,
        probe_request().headers.len() == 0,
        probe_request().body.len() == 0,
{
}

/// A probe by request finds what the upstream answers to a bare `HEAD /healthz`: it is
/// live exactly when that is a response without a server error.
pub proof fn law_head_probe_goes_by_the_answer<U: Upstream>(pre: &U, live: bool, post: &U)
    requires
        head_probed(pre, live, post),
    ensures
        exists|reply: ReplyView|
            {
                &&& #[trigger] pre.answers(
                    RequestView::bare(MethodView::Head, "/healthz"@),
                    reply,
                    post,
                )
                &&& live <==> (reply.outcome matches Ok(resp) && resp.status < 500)
            },
{
    let reply = choose|reply: ReplyView| #[trigger]
        pre.answers(probe_request(), reply, post) && live == reply.is_live();
    assert(pre.answers(RequestView::bare(MethodView::Head, "/healthz"@), reply, post));
}

/// An upstream in a box is the upstream.
pub proof fn law_boxed_upstream_is_the_upstream<U: Upstream>(
    pre: Box<U>,
    req: RequestView,
    reply: ReplyView,
    live: bool,
    post: Box<U>,
)
    ensures
        pre.ready() <==> (*pre).ready(),
        pre.answers(req, reply, &post) <==> (*pre).answers(req, reply, &*post),
        pre.probed(live, &post) <==> (*pre).probed(live, &*post),
{
}

/// A mock answers any request with the next step of its script, and a probe with the next
/// of its probe results, and each moves on by one.
pub proof fn law_mock_answers_by_script(
    pre: MockUpstream,
    req: RequestView,
    reply: ReplyView,
    live: bool,
    post: MockUpstream,
)
    ensures
        pre.answers(req, reply, &post) <==> reply == pre@.next_step().played_by(pre@.name) && post@
            == pre@.after_sends(1),
        pre.probed(live, &post) <==> live == pre@.next_probe() && post@ == pre@.after_probes(1),
{
    reveal_with_fuel(MockView::after_sends, 2);
    reveal_with_fuel(MockView::after_probes, 2);
}

} // verus!
