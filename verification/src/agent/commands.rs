//! Shell command execution with live output streaming.
//!
//! A command runs under the user's login shell. stdout and stderr are
//! forwarded to the bridge as `command_output` notifications while the command
//! runs; the final answer carries the exit status.
//!
//! With `wait: false` the answer is an `execution_id`, given at once, and the
//! command keeps running in the background; its result is fetched by that id.

use std::collections::HashMap;
use vstd::prelude::*;

use crate::ids::{lemma_others, others, remove_id};
use crate::json::{as_str, entries, json_view, object_members, JsonView};
use crate::protocol::encode::{
    exit_view, finished_value, finished_view, output_value, run_result_value, run_result_view,
};
use crate::protocol::{
    notify, CommandFinishedNotification, CommandOutputNotification, GetCommandResult,
    GetCommandResultParams, RunCommandParams, RunCommandResult,
};
use crate::rpc::{notification_frame, notification_value, response_frame, response_value};
use crate::text::{
    copied, decimal, join, joined, lines, lines_of, opt_text, push_decimal, signed_decimal, texts,
    trim, trimmed,
};

verus! {

broadcast use vstd::std_specs::hash::group_hash_axioms;

// ---------------------------------------------------------------------------
// What is run
// ---------------------------------------------------------------------------

/// A command as it is handed to the shell.
#[derive(Debug)]
pub struct ShellCommand {
    pub shell: String,
    /// Passed to the shell after `-c`.
    pub command: String,
    pub cwd: Option<String>,
    /// Environment overrides, each name once.
    pub env: Vec<(String, String)>,
    /// Written to stdin, which is then closed.
    pub input: Option<String>,
    /// Answer when the command has ended, not at once.
    pub wait: bool,
    /// Kill the command after this many seconds.
    pub deadline_secs: Option<u64>,
}

/// The members that are texts: the only ones that override the environment.
pub open spec fn text_members(m: Map<Seq<char>, JsonView>) -> Map<Seq<char>, Seq<char>> {
    Map::new(
        |k: Seq<char>| m.contains_key(k) && m[k] is Text,
        |k: Seq<char>| m[k]->Text_0,
    )
}

/// `pairs` holds each entry of `m` once, and nothing else.
pub open spec fn lists_map(pairs: Seq<(String, String)>, m: Map<Seq<char>, Seq<char>>) -> bool {
    &&& forall|i: int|
        0 <= i < pairs.len() ==> m.contains_key((#[trigger] pairs[i]).0@) && m[pairs[i].0@]
            == pairs[i].1@
    &&& forall|k: Seq<char>| #[trigger]
        m.contains_key(k) ==> exists|i: int| 0 <= i < pairs.len() && (#[trigger] pairs[i]).0@ == k
    &&& forall|i: int, j: int|
        0 <= i < j < pairs.len() ==> (#[trigger] pairs[i]).0@ != (#[trigger] pairs[j]).0@
}

/// The environment overrides of a request.
pub open spec fn env_overrides(params: RunCommandParams) -> Map<Seq<char>, Seq<char>> {
    match params.env {
        Some(m) => text_members(object_members(m)),
        None => Map::empty(),
    }
}

/// A deadline of 0 seconds is none.
pub open spec fn deadline(timeout_secs: Option<u64>) -> Option<u64> {
    match timeout_secs {
        Some(secs) => if secs > 0 {
            Some(secs)
        } else {
            None
        },
        None => None,
    }
}

/// The members of a JSON object that are texts.
fn text_pairs(m: &serde_json::Map<String, serde_json::Value>) -> (res: Vec<(String, String)>)
    ensures
        lists_map(res@, text_members(object_members(*m))),
{
    let all = entries(m);
    let ghost members = object_members(*m);
    let ghost wanted = text_members(members);
    let mut out: Vec<(String, String)> = Vec::new();
    let mut i: usize = 0;
    while i < all.len()
        invariant
            i <= all@.len(),
            members == object_members(*m),
            wanted == text_members(members),
            forall|k: int|
                0 <= k < all@.len() ==> members.contains_key((#[trigger] all@[k]).0@)
                    && members[all@[k].0@] == json_view(all@[k].1),
            forall|a: int, b: int|
                0 <= a < b < all@.len() ==> (#[trigger] all@[a]).0@ != (#[trigger] all@[b]).0@,
            forall|k: int|
                0 <= k < out@.len() ==> wanted.contains_key((#[trigger] out@[k]).0@)
                    && wanted[out@[k].0@] == out@[k].1@ && exists|a: int|
                    0 <= a < i && (#[trigger] all@[a]).0@ == out@[k].0@,
            forall|a: int|
                0 <= a < i && wanted.contains_key((#[trigger] all@[a]).0@) ==> exists|k: int|
                    0 <= k < out@.len() && (#[trigger] out@[k]).0@ == all@[a].0@,
            forall|a: int, b: int|
                0 <= a < b < out@.len() ==> (#[trigger] out@[a]).0@ != (#[trigger] out@[b]).0@,
        decreases all@.len() - i,
    {
        let ghost before = out@;
        let ghost at: int = i as int;
        assert(members[all@[at].0@] == json_view(all@[at].1));
        if let Some(value) = as_str(&all[i].1) {
            out.push((all[i].0.clone(), value.to_owned()));
            proof {
                let n = before.len() as int;
                assert(out@[n].0@ == all@[at].0@);
                assert(wanted.contains_key(all@[at].0@));
                assert forall|a: int| 0 <= a < n implies (#[trigger] out@[a]).0@ != out@[n].0@ by {
                    assert(out@[a] == before[a]);
                    let b = choose|b: int|
                        0 <= b < at && (#[trigger] all@[b]).0@ == before[a].0@;
                    assert(all@[b].0@ != all@[at].0@);
                }
                assert forall|a: int, b: int| 0 <= a < b < out@.len() implies (
                #[trigger] out@[a]).0@ != (#[trigger] out@[b]).0@ by {
                    if b < n {
                        assert(out@[a] == before[a] && out@[b] == before[b]);
                    }
                }
                assert forall|k: int| 0 <= k < out@.len() implies wanted.contains_key(
                    (#[trigger] out@[k]).0@,
                ) && wanted[out@[k].0@] == out@[k].1@ && exists|a: int|
                    0 <= a < at + 1 && (#[trigger] all@[a]).0@ == out@[k].0@ by {
                    if k < n {
                        assert(out@[k] == before[k]);
                        let b = choose|b: int|
                            0 <= b < at && (#[trigger] all@[b]).0@ == before[k].0@;
                        assert(all@[b].0@ == out@[k].0@);
                    } else {
                        assert(all@[at].0@ == out@[k].0@);
                    }
                }
                assert forall|a: int|
                    0 <= a < at + 1 && wanted.contains_key(
                        (#[trigger] all@[a]).0@,
                    ) implies exists|k: int|
                    0 <= k < out@.len() && (#[trigger] out@[k]).0@ == all@[a].0@ by {
                    if a < at {
                        let k = choose|k: int|
                            0 <= k < before.len() && (#[trigger] before[k]).0@ == all@[a].0@;
                        assert(out@[k] == before[k]);
                    } else {
                        assert(out@[n].0@ == all@[a].0@);
                    }
                }
            }
        } else {
            assert(!wanted.contains_key(all@[at].0@));
        }
        i += 1;
    }
    proof {
        assert forall|k: Seq<char>| #[trigger] wanted.contains_key(k) implies exists|j: int|
            0 <= j < out@.len() && (#[trigger] out@[j]).0@ == k by {
            assert(members.contains_key(k));
            let a = choose|a: int| 0 <= a < all@.len() && (#[trigger] all@[a]).0@ == k;
            assert(wanted.contains_key(all@[a].0@));
        }
    }
    out
}

/// What a request to run a command asks for. `shell` is the user's login
/// shell, where it is known.
pub fn run_command(params: &RunCommandParams, shell: Option<String>) -> (res: Result<
    ShellCommand,
    String,
>)
    ensures
        match res {
            Ok(c) => {
                &&& trimmed(params.command@).len() > 0
                &&& c.shell@ == match shell {
                    Some(s) => s@,
                    None => "/bin/sh"@,
                }
                &&& c.command@ == params.command@
                &&& opt_text(c.cwd) == opt_text(params.cwd)
                &&& lists_map(c.env@, env_overrides(*params))
                &&& opt_text(c.input) == opt_text(params.input)
                &&& c.wait == (params.wait != Some(false))
                &&& c.deadline_secs == deadline(params.timeout_secs)
                &&& forall|n: u64| n > 0 && params.timeout_secs == Some(n) ==> c.deadline_secs == Some(n)
                &&& params.timeout_secs == Some(0u64) ==> c.deadline_secs is None
                &&& params.timeout_secs is None ==> c.deadline_secs is None
                &&& params.env is None ==> c.env@.len() == 0
                &&& params.env is Some ==> forall|i: int|
                    0 <= i < c.env@.len() ==> object_members(params.env->0).contains_key(
                        (#[trigger] c.env@[i]).0@,
                    ) && object_members(params.env->0)[c.env@[i].0@] == JsonView::Text(
                        c.env@[i].1@,
                    )
                &&& params.env is Some ==> forall|k: Seq<char>|
                    object_members(params.env->0).contains_key(k) && (#[trigger] object_members(
                        params.env->0,
                    )[k]) is Text ==> exists|i: int|
                        0 <= i < c.env@.len() && (#[trigger] c.env@[i]).0@ == k
            },
            Err(e) => trimmed(params.command@).len() == 0 && e@ == "command must not be empty"@,
        },
{
    if trim(params.command.as_str()).as_str().unicode_len() == 0 {
        return Err("command must not be empty".to_owned());
    }
    let shell = match shell {
        Some(s) => s,
        None => "/bin/sh".to_owned(),
    };
    let env = match &params.env {
        Some(m) => text_pairs(m),
        None => Vec::new(),
    };
    let wait = match params.wait {
        Some(wait) => wait,
        None => true,
    };
    let deadline_secs = match params.timeout_secs {
        Some(secs) => if secs > 0 {
            Some(secs)
        } else {
            None
        },
        None => None,
    };
    proof {
        if params.env is Some {
            let members = object_members(params.env->0);
            let wanted = text_members(members);
            assert forall|k: Seq<char>|
                members.contains_key(k) && (#[trigger] members[k]) is Text implies exists|i: int|
                0 <= i < env@.len() && (#[trigger] env@[i]).0@ == k by {
                assert(wanted.contains_key(k));
            }
        }
    }
    Ok(
        ShellCommand {
            shell,
            command: params.command.clone(),
            cwd: copied(&params.cwd),
            env,
            input: copied(&params.input),
            wait,
            deadline_secs,
        },
    )
}

/// The message for a command that could not be started.
pub fn spawn_error(command: &str, error: &str) -> (res: String)
    ensures
        res@ == "failed to spawn `"@ + command@ + "`: "@ + error@,
{
    let mut message = "failed to spawn `".to_owned();
    message.append(command);
    message.append("`: ");
    message.append(error);
    message
}

// ---------------------------------------------------------------------------
// Output
// ---------------------------------------------------------------------------

/// Where a line of output comes from.
#[derive(Clone, Copy, PartialEq, Eq, Structural, Debug)]
pub enum Stream {
    Stdout,
    Stderr,
}

/// The name of a stream in notifications.
pub open spec fn stream_name(s: Stream) -> Seq<char> {
    match s {
        Stream::Stdout => "stdout"@,
        Stream::Stderr => "stderr"@,
    }
}

/// Which streams of a command have ended.
#[derive(Clone, Copy, Debug)]
pub struct OutputStreams {
    pub stdout_done: bool,
    pub stderr_done: bool,
}

impl OutputStreams {
    /// Both streams are open.
    pub fn new() -> (res: Self)
        ensures
            !res.stdout_done,
            !res.stderr_done,
    {
        OutputStreams { stdout_done: false, stderr_done: false }
    }

    /// Nothing more will come.
    pub fn finished(&self) -> (res: bool)
        ensures
            res == (self.stdout_done && self.stderr_done),
    {
        self.stdout_done && self.stderr_done
    }

    /// A read of stream `from` has given a line, or the stream has ended or
    /// failed. A line is recorded in `output` and returned as the notification
    /// to send.
    pub fn step(
        &mut self,
        id: u64,
        from: Stream,
        line: Option<&str>,
        output: &mut String,
    ) -> (res: Option<serde_json::Value>)
        ensures
            final(self).stdout_done == (old(self).stdout_done || from == Stream::Stdout
                && line is None),
            final(self).stderr_done == (old(self).stderr_done || from == Stream::Stderr
                && line is None),
            match line {
                Some(line) => {
                    &&& final(output)@ == old(output)@ + line@ + "\n"@
                    &&& res is Some
                    &&& json_view(res->0) == output_frame(id, from, line@ + "\n"@)
                    &&& json_view(res->0) == JsonView::Object(
                        map![
                            "jsonrpc"@ => JsonView::Text("2.0"@),
                            "method"@ => JsonView::Text("command_output"@),
                            "params"@ => JsonView::Object(
                                map![
                                    "id"@ => crate::json::unsigned(id),
                                    "stream"@ => JsonView::Text(
                                        if from == Stream::Stdout {
                                            "stdout"@
                                        } else {
                                            "stderr"@
                                        },
                                    ),
                                    "data"@ => JsonView::Text(line@ + "\n"@),
                                ],
                            ),
                        ],
                    )
                },
                None => final(output)@ == old(output)@ && res is None,
            },
    {
        match line {
            Some(line) => {
                output.append(line);
                output.append("\n");
                Some(output_notification(id, from, line))
            },
            None => {
                match from {
                    Stream::Stdout => {
                        self.stdout_done = true;
                    },
                    Stream::Stderr => {
                        self.stderr_done = true;
                    },
                }
                None
            },
        }
    }
}

/// The notification of a piece of output.
pub open spec fn output_frame(id: u64, from: Stream, data: Seq<char>) -> JsonView {
    notification_frame(
        notify::COMMAND_OUTPUT@,
        JsonView::Object(
            Map::<Seq<char>, JsonView>::empty().insert("id"@, crate::json::unsigned(id)).insert(
                "stream"@,
                JsonView::Text(stream_name(from)),
            ).insert("data"@, JsonView::Text(data)),
        ),
    )
}

/// The notification of a line of output.
fn output_notification(id: u64, from: Stream, line: &str) -> (res: serde_json::Value)
    ensures
        json_view(res) == output_frame(id, from, line@ + "\n"@),
{
    let mut data = line.to_owned();
    data.append("\n");
    let stream = match from {
        Stream::Stdout => "stdout".to_owned(),
        Stream::Stderr => "stderr".to_owned(),
    };
    notification_value(
        notify::COMMAND_OUTPUT,
        output_value(&CommandOutputNotification { id, stream, data }),
    )
}

/// The first `head` lines.
pub open spec fn head_lines(all: Seq<Seq<char>>, head: Option<usize>) -> Seq<Seq<char>> {
    match head {
        Some(h) => if h < all.len() {
            all.take(h as int)
        } else {
            all
        },
        None => all,
    }
}

/// The last `tail` lines.
pub open spec fn tail_lines(all: Seq<Seq<char>>, tail: Option<usize>) -> Seq<Seq<char>> {
    match tail {
        Some(t) => if t < all.len() {
            all.skip(all.len() - t)
        } else {
            all
        },
        None => all,
    }
}

/// Of the first `head` lines of `output` the last `tail`, joined by newlines.
pub open spec fn trimmed_output(
    output: Seq<char>,
    head: Option<usize>,
    tail: Option<usize>,
) -> Seq<char> {
    joined(tail_lines(head_lines(lines_of(output), head), tail), "\n"@)
}

/// Apply head (first N lines) and then tail (last N lines) to the output.
pub fn trim_output(output: &str, head: Option<usize>, tail: Option<usize>) -> (res: String)
    ensures
        res@ == trimmed_output(output@, head, tail),
        ({
            let all = lines_of(output@);
            let to: int = if head is Some && head->0 < all.len() {
                head->0 as int
            } else {
                all.len() as int
            };
            let from: int = if tail is Some && tail->0 < to {
                to - tail->0
            } else {
                0
            };
            res@ == joined(all.subrange(from, to), "\n"@)
        }),
{
    let all = lines(output);
    let mut to: usize = all.len();
    if let Some(h) = head {
        if h < to {
            to = h;
        }
    }
    let mut from: usize = 0;
    if let Some(t) = tail {
        if t < to {
            from = to - t;
        }
    }
    let mut kept: Vec<String> = Vec::new();
    let mut i: usize = from;
    while i < to
        invariant
            from <= i <= to,
            to <= all@.len(),
            texts(kept@) == texts(all@).subrange(from as int, i as int),
        decreases to - i,
    {
        let ghost before = kept@;
        kept.push(all[i].clone());
        proof {
            assert(texts(kept@) =~= texts(before).push(all@[i as int]@));
            assert(texts(all@).subrange(from as int, i + 1) =~= texts(all@).subrange(
                from as int,
                i as int,
            ).push(texts(all@)[i as int]));
        }
        i += 1;
    }
    proof {
        let full = lines_of(output@);
        let heads = head_lines(full, head);
        assert(heads =~= full.subrange(0, to as int));
        assert(tail_lines(heads, tail) =~= full.subrange(from as int, to as int));
    }
    join(kept.as_slice(), "\n")
}

// ---------------------------------------------------------------------------
// The end of a command
// ---------------------------------------------------------------------------

/// How a command ended.
#[derive(Clone, Copy, PartialEq, Eq, Structural, Debug)]
pub enum Ending {
    /// It exited with this status, or was killed by a signal.
    Exited(Option<i32>),
    /// The deadline passed first: the command is to be killed.
    DeadlinePassed,
}

/// The exit status and whether the command timed out.
pub open spec fn outcome_of(e: Ending) -> (Option<i32>, bool) {
    match e {
        Ending::Exited(code) => (code, false),
        Ending::DeadlinePassed => (None, true),
    }
}

/// The exit status that is reported, and whether the command timed out. A
/// command that timed out is killed and has no status.
pub fn outcome(e: Ending) -> (res: (Option<i32>, bool))
    ensures
        res == outcome_of(e),
        forall|code: Option<i32>| e == Ending::Exited(code) ==> res.0 == code && !res.1,
        e == Ending::DeadlinePassed ==> res.0 is None && res.1,
{
    match e {
        Ending::Exited(code) => (code, false),
        Ending::DeadlinePassed => (None, true),
    }
}

/// How the end of a command is reported in the log.
pub open spec fn completion(exit_code: Option<i64>, timed_out: bool) -> Seq<char> {
    if timed_out {
        "command finished: timed out"@
    } else {
        match exit_code {
            Some(code) => "command finished: exit code "@ + signed_decimal(code as int),
            None => "command finished: killed by signal"@,
        }
    }
}

/// How the end of a command is reported in the log.
pub fn completion_message(exit_code: Option<i64>, timed_out: bool) -> (res: String)
    ensures
        res@ == completion(exit_code, timed_out),
        timed_out ==> res@ == "command finished: timed out"@,
        !timed_out && exit_code is None ==> res@ == "command finished: killed by signal"@,
        !timed_out && exit_code is Some ==> res@ == "command finished: exit code "@
            + signed_decimal(exit_code->0 as int),
{
    if timed_out {
        return "command finished: timed out".to_owned();
    }
    match exit_code {
        Some(code) => {
            let mut message = "command finished: exit code ".to_owned();
            message.append(crate::text::signed_decimal_text(code).as_str());
            message
        },
        None => "command finished: killed by signal".to_owned(),
    }
}

// ---------------------------------------------------------------------------
// Commands of a session
// ---------------------------------------------------------------------------

/// Result of a command started with `wait: false`, kept from its start until
/// it is fetched.
#[derive(Debug)]
pub struct CommandResult {
    /// True once the command has exited.
    pub done: bool,
    pub exit_code: Option<i32>,
    pub timed_out: bool,
    /// Output so far; grows as lines arrive.
    pub output: String,
}

/// The result of a background command, as a mathematical value.
pub struct ResultView {
    pub done: bool,
    pub exit_code: Option<i32>,
    pub timed_out: bool,
    pub output: Seq<char>,
}

impl View for CommandResult {
    type V = ResultView;

    open spec fn view(&self) -> ResultView {
        ResultView {
            done: self.done,
            exit_code: self.exit_code,
            timed_out: self.timed_out,
            output: self.output@,
        }
    }
}

/// What an agent keeps of its commands.
pub struct AgentState {
    /// Pairing token presented to the relay.
    pub token: String,
    /// Commands to kill on disconnect, by request id.
    commands: Vec<u64>,
    /// Commands started with `wait: false`: request id -> result.
    results: HashMap<u64, CommandResult>,
}

/// What an agent keeps of its commands, as a mathematical value.
#[verifier::ext_equal]
pub struct AgentView {
    pub token: Seq<char>,
    pub commands: Seq<u64>,
    pub results: Map<u64, ResultView>,
}

impl View for AgentState {
    type V = AgentView;

    closed spec fn view(&self) -> AgentView {
        AgentView {
            token: self.token@,
            commands: self.commands@,
            results: self.results@.map_values(|r: CommandResult| r@),
        }
    }
}

impl AgentView {
    /// A command has been started.
    pub open spec fn started(self, id: u64, wait: bool) -> AgentView {
        AgentView {
            commands: others(self.commands, id).push(id),
            results: if wait {
                self.results
            } else {
                self.results.insert(
                    id,
                    ResultView { done: false, exit_code: None, timed_out: false, output: ""@ },
                )
            },
            ..self
        }
    }

    /// A background command has written `text`.
    pub open spec fn appended(self, id: u64, text: Seq<char>) -> AgentView {
        if self.results.contains_key(id) {
            let r = self.results[id];
            AgentView {
                results: self.results.insert(id, ResultView { output: r.output + text, ..r }),
                ..self
            }
        } else {
            self
        }
    }

    /// A background command has ended; how is not known where waiting for it
    /// failed.
    pub open spec fn settled(self, id: u64, how: Option<(Option<i32>, bool)>) -> AgentView {
        if self.results.contains_key(id) {
            let r = self.results[id];
            let r = match how {
                Some((exit_code, timed_out)) => ResultView {
                    done: true,
                    exit_code,
                    timed_out,
                    ..r
                },
                None => ResultView { done: true, ..r },
            };
            AgentView { results: self.results.insert(id, r), ..self }
        } else {
            self
        }
    }

    /// The result of `id` has been fetched: it is kept while the command runs.
    pub open spec fn fetched(self, id: u64) -> AgentView {
        if self.results.contains_key(id) && self.results[id].done {
            AgentView { results: self.results.remove(id), ..self }
        } else {
            self
        }
    }
}

/// What a fetch of the result `r` reports: the ending only once there is one.
pub open spec fn is_report(
    g: GetCommandResult,
    r: ResultView,
    head: Option<usize>,
    tail: Option<usize>,
) -> bool {
    &&& g.done == r.done
    &&& g.exit_code == (if r.done {
        r.exit_code
    } else {
        None
    })
    &&& g.timed_out == (if r.done {
        Some(r.timed_out)
    } else {
        None
    })
    &&& g.output@ == trimmed_output(r.output, head, tail)
}

/// The answer to a command that keeps running.
pub open spec fn is_started_answer(r: RunCommandResult, id: u64) -> bool {
    &&& r.exit_code is None
    &&& !r.timed_out
    &&& r.output@ == ""@
    &&& r.execution_id == Some(id)
}

/// What is sent when a command that was waited for has ended.
#[derive(Debug)]
pub struct Completion {
    /// The `command_finished` notification, sent first.
    pub notification: serde_json::Value,
    /// The answer to the request.
    pub response: serde_json::Value,
}

impl AgentState {
    pub fn new(token: String) -> (res: Self)
        ensures
            res@.token == token@,
            res@.commands == Seq::<u64>::empty(),
            res@.results == Map::<u64, ResultView>::empty(),
    {
        let res = AgentState { token, commands: Vec::new(), results: HashMap::new() };
        assert(res@.results =~= Map::<u64, ResultView>::empty());
        res
    }

    /// The command of request `id` has ended, or could not be waited for: there
    /// is nothing to kill any more.
    pub fn forget(&mut self, id: u64)
        ensures
            final(self)@ == (AgentView { commands: others(old(self)@.commands, id), ..old(self)@ }),
    {
        remove_id(&mut self.commands, id);
    }

    /// A command has been started for the request `id`. Where it is not waited
    /// for, this is the answer.
    pub fn start(&mut self, id: u64, wait: bool) -> (res: Option<RunCommandResult>)
        ensures
            final(self)@ == old(self)@.started(id, wait),
            match res {
                Some(r) => !wait && is_started_answer(r, id),
                None => wait,
            },
            !wait ==> res is Some && res->0.execution_id == Some(id) && res->0.exit_code is None
                && !res->0.timed_out && res->0.output@ == ""@,
            final(self)@.token == old(self)@.token,
            final(self)@.commands.contains(id),
            wait ==> final(self)@.results == old(self)@.results,
            !wait ==> final(self)@.results.contains_key(id) && final(self)@.results[id] == (
            ResultView { done: false, exit_code: None, timed_out: false, output: ""@ }),
            forall|other: u64|
                other != id ==> (#[trigger] final(self)@.results.contains_key(other)
                    <==> old(self)@.results.contains_key(other)) && (old(
                    self,
                )@.results.contains_key(other) ==> final(self)@.results[other] == old(
                    self,
                )@.results[other]),
    {
        let ghost before = self@;
        self.forget(id);
        self.commands.push(id);
        if wait {
            proof {
                assert(self@ =~= before.started(id, wait));
                lemma_started_command_is_killed_on_disconnect(before, id, wait);
            }
            return None;
        }
        let output = "".to_owned();
        self.results.insert(
            id,
            CommandResult { done: false, exit_code: None, timed_out: false, output },
        );
        assert(self@.results =~= before.started(id, wait).results);
        assert(self@ =~= before.started(id, wait));
        proof {
            lemma_started_command_is_killed_on_disconnect(before, id, wait);
        }
        Some(
            RunCommandResult {
                exit_code: None,
                timed_out: false,
                output: "".to_owned(),
                execution_id: Some(id),
            },
        )
    }

    /// The background command `id` has written `text`.
    pub fn append_output(&mut self, id: u64, text: &str)
        ensures
            final(self)@ == old(self)@.appended(id, text@),
            final(self)@.results.dom() == old(self)@.results.dom(),
            old(self)@.results.contains_key(id) ==> final(self)@.results[id] == (ResultView {
                output: old(self)@.results[id].output + text@,
                ..old(self)@.results[id]
            }),
            forall|other: u64|
                other != id && #[trigger] old(self)@.results.contains_key(other)
                    ==> final(self)@.results[other] == old(self)@.results[other],
    {
        let ghost before = self@;
        if let Some(r) = self.results.remove(&id) {
            assert(before.results[id] == r@);
            let mut r = r;
            r.output.append(text);
            self.results.insert(id, r);
        }
        assert(self@.results =~= before.appended(id, text@).results);
        assert(self@.results.dom() =~= before.results.dom());
    }

    /// The background command `id` has ended.
    pub fn settle(&mut self, id: u64, how: Option<(Option<i32>, bool)>)
        ensures
            final(self)@ == old(self)@.settled(id, how),
            old(self)@.results.contains_key(id) ==> {
                &&& final(self)@.results.contains_key(id)
                &&& final(self)@.results[id].done
                &&& final(self)@.results[id].output == old(self)@.results[id].output
                &&& how matches Some((exit_code, timed_out)) ==> final(self)@.results[id].exit_code
                    == exit_code && final(self)@.results[id].timed_out == timed_out
            },
            !old(self)@.results.contains_key(id) ==> final(self)@ == old(self)@,
            forall|other: u64|
                other != id && #[trigger] old(self)@.results.contains_key(other)
                    ==> final(self)@.results[other] == old(self)@.results[other],
    {
        let ghost before = self@;
        if let Some(r) = self.results.remove(&id) {
            assert(before.results[id] == r@);
            let mut r = r;
            if let Some((exit_code, timed_out)) = how {
                r.exit_code = exit_code;
                r.timed_out = timed_out;
            }
            r.done = true;
            self.results.insert(id, r);
        }
        assert(self@.results =~= before.settled(id, how).results);
    }

    /// The command of request `id`, which was waited for, has ended.
    pub fn finish(
        &mut self,
        id: u64,
        exit_code: Option<i32>,
        timed_out: bool,
        output: String,
    ) -> (res: Completion)
        ensures
            final(self)@ == (AgentView { commands: others(old(self)@.commands, id), ..old(self)@ }),
            json_view(res.notification) == notification_frame(
                notify::COMMAND_FINISHED@,
                finished_view(CommandFinishedNotification { id, exit_code, timed_out }),
            ),
            json_view(res.response) == response_frame(
                id,
                Some(
                    run_result_view(
                        RunCommandResult { exit_code, timed_out, output, execution_id: None },
                    ),
                ),
                None,
            ),
            !final(self)@.commands.contains(id),
            json_view(res.notification) == JsonView::Object(
                map![
                    "jsonrpc"@ => JsonView::Text("2.0"@),
                    "method"@ => JsonView::Text("command_finished"@),
                    "params"@ => JsonView::Object(
                        map![
                            "id"@ => crate::json::unsigned(id),
                            "exit_code"@ => exit_view(exit_code),
                            "timed_out"@ => JsonView::Bool(timed_out),
                        ],
                    ),
                ],
            ),
            json_view(res.response) == JsonView::Object(
                map![
                    "jsonrpc"@ => JsonView::Text("2.0"@),
                    "id"@ => crate::json::unsigned(id),
                    "result"@ => JsonView::Object(
                        map![
                            "exit_code"@ => exit_view(exit_code),
                            "timed_out"@ => JsonView::Bool(timed_out),
                            "output"@ => JsonView::Text(output@),
                        ],
                    ),
                ],
            ),
    {
        self.forget(id);
        proof {
            lemma_others(old(self)@.commands, id);
        }
        let notification = notification_value(
            notify::COMMAND_FINISHED,
            finished_value(&CommandFinishedNotification { id, exit_code, timed_out }),
        );
        let result = RunCommandResult { exit_code, timed_out, output, execution_id: None };
        let response = response_value(id, Some(run_result_value(&result)), None);
        Completion { notification, response }
    }

    /// Fetch the result of a command started with `wait: false`.
    pub fn get_command_result(&mut self, params: &GetCommandResultParams) -> (res: Result<
        GetCommandResult,
        String,
    >)
        ensures
            final(self)@ == old(self)@.fetched(params.execution_id),
            final(self)@.commands == old(self)@.commands,
            forall|other: u64|
                other != params.execution_id ==> (#[trigger] final(self)@.results.contains_key(
                    other,
                ) <==> old(self)@.results.contains_key(other)) && (old(
                    self,
                )@.results.contains_key(other) ==> final(self)@.results[other] == old(
                    self,
                )@.results[other]),
            res is Err ==> final(self)@ == old(self)@,
            match res {
                Ok(g) => {
                    &&& old(self)@.results.contains_key(params.execution_id)
                    &&& is_report(
                        g,
                        old(self)@.results[params.execution_id],
                        params.head,
                        params.tail,
                    )
                    &&& g.done == old(self)@.results[params.execution_id].done
                    &&& g.done ==> g.exit_code
                        == old(self)@.results[params.execution_id].exit_code && g.timed_out == Some(
                        old(self)@.results[params.execution_id].timed_out,
                    )
                    &&& !g.done ==> g.exit_code is None && g.timed_out is None
                    &&& final(self)@.results.contains_key(params.execution_id) == !g.done
                    &&& g.output@ == trimmed_output(
                        old(self)@.results[params.execution_id].output,
                        params.head,
                        params.tail,
                    )
                },
                Err(e) => {
                    &&& !old(self)@.results.contains_key(params.execution_id)
                    &&& e@ == "unknown execution id: "@ + decimal(params.execution_id as nat)
                },
            },
    {
        let ghost before = self@;
        let id = params.execution_id;
        match self.results.remove(&id) {
            Some(r) => {
                assert(before.results[id] == r@);
                let g = GetCommandResult {
                    done: r.done,
                    exit_code: if r.done {
                        r.exit_code
                    } else {
                        None
                    },
                    timed_out: if r.done {
                        Some(r.timed_out)
                    } else {
                        None
                    },
                    output: trim_output(r.output.as_str(), params.head, params.tail),
                };
                if !r.done {
                    self.results.insert(id, r);
                }
                assert(self@.results =~= before.fetched(id).results);
                Ok(g)
            },
            None => {
                assert(self@.results =~= before.results);
                let mut message = "unknown execution id: ".to_owned();
                push_decimal(&mut message, id);
                Err(message)
            },
        }
    }

    /// All commands that are to be killed (called on disconnect); none is kept.
    pub fn kill_all(&mut self) -> (res: Vec<u64>)
        ensures
            res@ == old(self)@.commands,
            final(self)@ == (AgentView { commands: Seq::empty(), ..old(self)@ }),
    {
        let mut out: Vec<u64> = Vec::new();
        let mut i: usize = 0;
        while i < self.commands.len()
            invariant
                self@ == old(self)@,
                i <= self.commands@.len(),
                out@ == self.commands@.take(i as int),
            decreases self.commands@.len() - i,
        {
            assert(self.commands@.take(i + 1) =~= self.commands@.take(i as int).push(
                self.commands@[i as int],
            ));
            out.push(self.commands[i]);
            i += 1;
        }
        assert(out@ =~= self.commands@);
        self.commands = Vec::new();
        out
    }
}

// ---------------------------------------------------------------------------
// Laws of commands
// ---------------------------------------------------------------------------

/// A command that was started is killed on disconnect, with every other one,
/// unless it has ended.
pub proof fn lemma_started_command_is_killed_on_disconnect(s: AgentView, id: u64, wait: bool)
    ensures
        s.started(id, wait).commands.contains(id),
        forall|x: u64|
            x != id ==> (#[trigger] s.started(id, wait).commands.contains(x)
                <==> s.commands.contains(x)),
        !others(s.started(id, wait).commands, id).contains(id),
{
    let after = s.started(id, wait).commands;
    lemma_others(s.commands, id);
    lemma_others(after, id);
    assert(after[after.len() - 1] == id);
    assert forall|x: u64| x != id implies (#[trigger] after.contains(x)
        <==> s.commands.contains(x)) by {
        let rest = others(s.commands, id);
        if after.contains(x) {
            let k = choose|k: int| 0 <= k < after.len() && after[k] == x;
            assert(rest[k] == x);
            assert(rest.contains(x));
        }
        if s.commands.contains(x) {
            assert(rest.contains(x));
            let k = choose|k: int| 0 <= k < rest.len() && rest[k] == x;
            assert(after[k] == x);
        }
    }
}

/// The deadline is what was asked for, whatever it is: a request to be stopped
/// after `n` seconds gives a deadline of `n`, and a request without a time, or
/// with none left, gives none.
pub proof fn lemma_deadline_is_the_time_asked_for(timeout_secs: Option<u64>)
    ensures
        forall|n: u64|
            n > 0 ==> (#[trigger] deadline(timeout_secs) == Some(n) <==> timeout_secs == Some(n)),
        deadline(timeout_secs) is None <==> timeout_secs is None || timeout_secs == Some(0u64),
{
}

/// What is kept of an output is a run of its lines: no more than `head` lines
/// from its start, and of these the last `tail`. Without a limit it is every
/// line.
pub proof fn lemma_trimmed_output_is_a_run_of_lines(
    output: Seq<char>,
    head: Option<usize>,
    tail: Option<usize>,
) -> (kept: (int, int))
    ensures
        0 <= kept.0 <= kept.1 <= lines_of(output).len(),
        trimmed_output(output, head, tail) == joined(
            lines_of(output).subrange(kept.0, kept.1),
            "\n"@,
        ),
        head is None ==> kept.1 == lines_of(output).len(),
        head is Some ==> kept.1 <= head->0 && (kept.1 == head->0 || kept.1 == lines_of(
            output,
        ).len()),
        tail is None ==> kept.0 == 0,
        tail is Some ==> kept.1 - kept.0 <= tail->0 && (kept.1 - kept.0 == tail->0 || kept.0 == 0),
{
    let all = lines_of(output);
    let heads = head_lines(all, head);
    let to: int = heads.len() as int;
    let from: int = to - tail_lines(heads, tail).len();
    assert(heads =~= all.subrange(0, to));
    assert(tail_lines(heads, tail) =~= all.subrange(from, to));
    (from, to)
}

/// The life of a background command: while it runs its result can be fetched
/// again and again, with the output so far; once it has ended the fetch gives
/// how it ended and all its output, and the result is then gone. Results of
/// other commands are not touched.
pub proof fn lemma_background_result_is_kept_until_fetched(
    s: AgentView,
    id: u64,
    text: Seq<char>,
    exit_code: Option<i32>,
    timed_out: bool,
)
    ensures
        ({
            let running = s.started(id, false).appended(id, text);
            let ended = running.settled(id, Some((exit_code, timed_out)));
            &&& running.results.contains_key(id)
            &&& !running.results[id].done
            &&& running.results[id].output == text
            &&& running.fetched(id) == running
            &&& ended.results.contains_key(id)
            &&& ended.results[id] == (ResultView { done: true, exit_code, timed_out, output: text })
            &&& !ended.fetched(id).results.contains_key(id)
            &&& forall|other: u64|
                other != id ==> (#[trigger] ended.fetched(id).results.contains_key(other)
                    <==> s.results.contains_key(other)) && (s.results.contains_key(other)
                    ==> ended.fetched(id).results[other] == s.results[other])
        }),
{
    reveal_strlit("");
    assert(""@ + text =~= text);
}

} // verus!
