//! The decisions of iterative resolution.
//!
//! A `Resolver` never talks to the network. It says which query to send
//! next, is handed the response, and says what follows: another query, the
//! final message, or a failure. At most `QUERY_BUDGET` queries are asked
//! for, however the name servers answer.

use vstd::prelude::*;
use crate::enums::{QueryType, ResultCode};
use crate::error::DnsError;
use crate::packet::{first_address, glued_server, servers_for, Packet, PacketView};

verus! {

/// The address of the root server from which every descent starts:
/// 198.41.0.4.
pub const ROOT_SERVER: u32 = 0xC629_0004;

/// How many upstream queries one resolution may ask for.
pub const QUERY_BUDGET: usize = 16;

/// What a response means for the name that was asked about.
#[derive(Debug, Clone, PartialEq, Eq)]
pub enum Verdict {
    /// The response answers the question.
    Answer,
    /// The response says that the name does not exist.
    NameError,
    /// The response refers to a name server and gives its address.
    Glue(u32),
    /// The response refers to a name server by name only.
    Chase(String),
    /// The response refers to no name server.
    Exhausted,
}

/// A verdict as a mathematical value.
pub enum VerdictView {
    Answer,
    NameError,
    Glue(u32),
    Chase(Seq<char>),
    Exhausted,
}

impl View for Verdict {
    type V = VerdictView;

    open spec fn view(&self) -> VerdictView {
        match *self {
            Verdict::Answer => VerdictView::Answer,
            Verdict::NameError => VerdictView::NameError,
            Verdict::Glue(addr) => VerdictView::Glue(addr),
            Verdict::Chase(host) => VerdictView::Chase(host@),
            Verdict::Exhausted => VerdictView::Exhausted,
        }
    }
}

/// What `response` means for `qname`. Answers count only beside the code
/// `NOERROR`; a name error counts whatever else the response holds; a name
/// server with an address in the response is preferred to one without; of
/// several, the first is taken.
pub open spec fn verdict(response: PacketView, qname: Seq<char>) -> VerdictView {
    let servers = servers_for(response.authorities, qname, response.authorities.len());
    if response.answers.len() > 0 && response.header.responce_code == ResultCode::NOERROR {
        VerdictView::Answer
    } else if response.header.responce_code == ResultCode::NXDOMAIN {
        VerdictView::NameError
    } else {
        match glued_server(servers, response.resources, servers.len()) {
            Some(addr) => VerdictView::Glue(addr),
            None => if servers.len() > 0 {
                VerdictView::Chase(servers[0].1)
            } else {
                VerdictView::Exhausted
            },
        }
    }
}

/// Judges a response to a query for `qname`.
pub fn decide(response: &Packet, qname: &str) -> (res: Verdict)
    ensures
        res@ == verdict(response@, qname@),
{
    if response.answers.len() > 0 && response.header.responce_code == ResultCode::NOERROR {
        return Verdict::Answer;
    }
    if response.header.responce_code == ResultCode::NXDOMAIN {
        return Verdict::NameError;
    }
    if let Some(addr) = response.get_resolved_ns(qname) {
        return Verdict::Glue(addr);
    }
    match response.get_unresolved_ns(qname) {
        Some(host) => Verdict::Chase(host.to_owned()),
        None => Verdict::Exhausted,
    }
}

/// One name being resolved: the question, the server to ask next, and,
/// while the address of a name server is looked for on its behalf, the
/// referral that named that server.
#[derive(Debug, Clone, PartialEq, Eq)]
pub struct Task {
    pub qname: String,
    pub qtype: QueryType,
    pub server: u32,
    pub referral: Option<Packet>,
}

/// A task as a mathematical value.
pub struct TaskView {
    pub qname: Seq<char>,
    pub qtype: QueryType,
    pub server: u32,
    pub referral: Option<PacketView>,
}

impl View for Task {
    type V = TaskView;

    open spec fn view(&self) -> TaskView {
        TaskView {
            qname: self.qname@,
            qtype: self.qtype,
            server: self.server,
            referral: match self.referral {
                Some(packet) => Some(packet@),
                None => None,
            },
        }
    }
}

/// What the resolver wants done next.
#[derive(Debug, Clone, PartialEq, Eq)]
pub enum Action {
    /// Send this question to port 53 of `server` and hand the response to
    /// `step`.
    Query { server: u32, qname: String, qtype: QueryType },
    /// The resolution has ended with this message.
    Done(Packet),
    /// The resolution has failed.
    Failed(DnsError),
}

/// An action as a mathematical value.
pub enum ActionView {
    Query { server: u32, qname: Seq<char>, qtype: QueryType },
    Done(PacketView),
    Failed(DnsError),
}

impl View for Action {
    type V = ActionView;

    open spec fn view(&self) -> ActionView {
        match *self {
            Action::Query { server, qname, qtype } => ActionView::Query {
                server,
                qname: qname@,
                qtype,
            },
            Action::Done(packet) => ActionView::Done(packet@),
            Action::Failed(e) => ActionView::Failed(e),
        }
    }
}

/// The state of one resolution: the names being resolved, the one asked
/// for first, and the queries that may still be asked for.
#[derive(Debug, Clone, PartialEq, Eq)]
pub struct Resolver {
    pub tasks: Vec<Task>,
    pub budget: usize,
}

/// A resolver as a mathematical value.
pub struct ResolverView {
    pub tasks: Seq<TaskView>,
    pub budget: nat,
}

/// The tasks of `list` as mathematical values.
pub open spec fn task_views(list: Seq<Task>) -> Seq<TaskView> {
    Seq::new(list.len(), |i: int| list[i]@)
}

impl View for Resolver {
    type V = ResolverView;

    open spec fn view(&self) -> ResolverView {
        ResolverView { tasks: task_views(self.tasks@), budget: self.budget as nat }
    }
}

/// A step of the resolver: its state afterwards and what it wants done.
pub struct Turn {
    pub state: ResolverView,
    pub action: ActionView,
}

/// The state of a resolver that has ended.
pub open spec fn ended() -> ResolverView {
    ResolverView { tasks: Seq::empty(), budget: 0 }
}

/// Asking for the next query of the last task: it costs one query of the
/// budget, and fails where none is left.
pub open spec fn ask(state: ResolverView) -> Turn {
    if state.tasks.len() == 0 || state.budget == 0 {
        Turn { state: ended(), action: ActionView::Failed(DnsError::BudgetExhausted) }
    } else {
        let task = state.tasks.last();
        Turn {
            state: ResolverView { tasks: state.tasks, budget: (state.budget - 1) as nat },
            action: ActionView::Query {
                server: task.server,
                qname: task.qname,
                qtype: task.qtype,
            },
        }
    }
}

/// What becomes of the tasks `waiting` once the task above them has ended
/// with `result`.
///
/// Where no task waits, the resolution ends with `result`. Else the last
/// of them was waiting for a name server's address. With an address record
/// among the answers of `result` it goes on at that address. Without one it
/// ends in its turn, with the referral it was waiting on.
pub open spec fn settle(waiting: Seq<TaskView>, result: PacketView) -> (Seq<TaskView>, Option<
    PacketView,
>)
    decreases waiting.len(),
{
    if waiting.len() == 0 {
        (waiting, Some(result))
    } else {
        let task = waiting.last();
        match first_address(result.answers, result.answers.len()) {
            Some(addr) => (
                waiting.drop_last().push(TaskView { server: addr, referral: None, ..task }),
                None,
            ),
            None => settle(
                waiting.drop_last(),
                match task.referral {
                    Some(referral) => referral,
                    None => result,
                },
            ),
        }
    }
}

/// The step that the resolver takes on `event`, the outcome of the query
/// it asked for last.
pub open spec fn turn(state: ResolverView, event: Result<PacketView, DnsError>) -> Turn {
    if state.tasks.len() == 0 {
        Turn { state: ended(), action: ActionView::Failed(DnsError::BudgetExhausted) }
    } else {
        let task = state.tasks.last();
        let waiting = state.tasks.drop_last();
        match event {
            Err(e) => Turn { state: ended(), action: ActionView::Failed(e) },
            Ok(response) => match verdict(response, task.qname) {
                VerdictView::Glue(addr) => ask(
                    ResolverView {
                        tasks: waiting.push(TaskView { server: addr, ..task }),
                        budget: state.budget,
                    },
                ),
                VerdictView::Chase(host) => ask(
                    ResolverView {
                        tasks: waiting.push(TaskView { referral: Some(response), ..task }).push(
                            TaskView {
                                qname: host,
                                qtype: QueryType::A,
                                server: ROOT_SERVER,
                                referral: None,
                            },
                        ),
                        budget: state.budget,
                    },
                ),
                _ => match settle(waiting, response) {
                    (_, Some(result)) => Turn { state: ended(), action: ActionView::Done(result) },
                    (tasks, None) => ask(ResolverView { tasks, budget: state.budget }),
                },
            },
        }
    }
}

impl Resolver {
    /// A resolver for one question, about to ask the root server.
    pub fn new(qname: String, qtype: QueryType) -> (res: Resolver)
        ensures
            res@ == (ResolverView {
                tasks: seq![
                    TaskView { qname: qname@, qtype, server: ROOT_SERVER, referral: None },
                ],
                budget: QUERY_BUDGET as nat,
            }),
    {
        let mut tasks: Vec<Task> = Vec::new();
        tasks.push(Task { qname, qtype, server: ROOT_SERVER, referral: None });
        let res = Resolver { tasks, budget: QUERY_BUDGET };
        assert(res@.tasks =~= seq![
            TaskView { qname: qname@, qtype, server: ROOT_SERVER, referral: None },
        ]);
        res
    }

    /// Asks for the next query. A resolver that has no query left in its
    /// budget, or has ended, fails.
    pub fn ask(&mut self) -> (res: Action)
        ensures
            final(self)@ == ask(old(self)@).state,
            res@ == ask(old(self)@).action,
            final(self).budget <= old(self).budget,
            res is Query ==> final(self).budget + 1 == old(self).budget,
    {
        let n = self.tasks.len();
        if n == 0 || self.budget == 0 {
            self.end();
            return Action::Failed(DnsError::BudgetExhausted);
        }
        self.budget = self.budget - 1;
        let task = &self.tasks[n - 1];
        Action::Query { server: task.server, qname: task.qname.clone(), qtype: task.qtype }
    }

    /// Takes the outcome of the query that was asked for last and says
    /// what follows.
    pub fn step(&mut self, event: Result<Packet, DnsError>) -> (res: Action)
        ensures
            final(self)@ == turn(old(self)@, event_view(event)).state,
            res@ == turn(old(self)@, event_view(event)).action,
            final(self).budget <= old(self).budget,
            res is Query ==> final(self).budget + 1 == old(self).budget,
    {
        let ghost before = self@;
        let task = match self.tasks.pop() {
            Some(task) => task,
            None => {
                self.end();
                return Action::Failed(DnsError::BudgetExhausted);
            },
        };
        assert(task_views(self.tasks@) =~= before.tasks.drop_last());
        assert(task@ == before.tasks.last());
        let response = match event {
            Ok(response) => response,
            Err(e) => {
                self.end();
                return Action::Failed(e);
            },
        };
        match decide(&response, task.qname.as_str()) {
            Verdict::Glue(addr) => {
                let ghost waiting = task_views(self.tasks@);
                let next = Task { server: addr, ..task };
                self.tasks.push(next);
                assert(task_views(self.tasks@) =~= waiting.push(next@));
                self.ask()
            },
            Verdict::Chase(host) => {
                let ghost waiting = task_views(self.tasks@);
                let parked = Task { referral: Some(response), ..task };
                let child = Task {
                    qname: host,
                    qtype: QueryType::A,
                    server: ROOT_SERVER,
                    referral: None,
                };
                self.tasks.push(parked);
                self.tasks.push(child);
                assert(task_views(self.tasks@) =~= waiting.push(parked@).push(child@));
                self.ask()
            },
            _ => {
                match self.settle(response) {
                    Some(result) => {
                        self.end();
                        Action::Done(result)
                    },
                    None => self.ask(),
                }
            },
        }
    }

    /// Ends the resolution: no task is left, and no budget.
    fn end(&mut self)
        ensures
            final(self)@ == ended(),
    {
        self.tasks.clear();
        self.budget = 0;
        assert(task_views(self.tasks@) =~= Seq::empty());
    }

    /// Lets the waiting tasks take the result of the task that has ended.
    fn settle(&mut self, result: Packet) -> (res: Option<Packet>)
        ensures
            final(self).budget == old(self).budget,
            task_views(final(self).tasks@) == settle(task_views(old(self).tasks@), result@).0,
            match settle(task_views(old(self).tasks@), result@).1 {
                Some(last) => res matches Some(packet) && packet@ == last,
                None => res is None,
            },
    {
        let mut current = result;
        loop
            invariant
                self.budget == old(self).budget,
                settle(task_views(self.tasks@), current@) == settle(
                    task_views(old(self).tasks@),
                    result@,
                ),
            decreases self.tasks@.len(),
        {
            let ghost waiting = task_views(self.tasks@);
            let task = match self.tasks.pop() {
                Some(task) => task,
                None => {
                    return Some(current);
                },
            };
            assert(task_views(self.tasks@) =~= waiting.drop_last());
            assert(task@ == waiting.last());
            match current.get_random_a() {
                Some(addr) => {
                    let next = Task { server: addr, referral: None, ..task };
                    self.tasks.push(next);
                    assert(task_views(self.tasks@) =~= waiting.drop_last().push(next@));
                    return None;
                },
                None => {
                    if let Some(referral) = task.referral {
                        current = referral;
                    }
                },
            }
        }
    }
}

/// The outcome of a query as a mathematical value.
pub open spec fn event_view(event: Result<Packet, DnsError>) -> Result<PacketView, DnsError> {
    match event {
        Ok(packet) => Ok(packet@),
        Err(e) => Err(e),
    }
}

} // verus!
