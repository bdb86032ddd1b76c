//! Approving a PCR 7 value for keys.

use vstd::prelude::*;
use vstd::utf8::encode_utf8;

use super::action::{
    answers, file_in, file_path, key_name, law_file_in, law_key_files, Action, ActionView, Key,
    ProvisionError, Reply, ReplyView,
};
use super::authorize::{pcr7_policy, pcr7_policy_file};
use super::output::{parse_pcr, pcr_of_text};
use crate::bytes::to_vec;
use crate::hex::hex_text;
use crate::path::joined;
use crate::tpm_key::{
    approval, approve_command, law_policy_text_concat, law_policy_text_of_one, pcr_policy,
    policy_counter_timer, policy_text,
};

verus! {

/// Approve an additional PCR 7 value for the keys (e.g. after a firmware update).
pub struct ApproveCommand {
    /// State directory
    pub dir: Vec<u8>,
    /// The approver private key (anything OpenSSL can load)
    pub pk: String,
    /// The PCR 7 value to approve (hex)
    pub pcr7: String,
    /// A name for the approval
    pub name: String,
    /// Only approve until the TPM clock (milliseconds, see `tpm2_readclock`) passes this value
    pub until_clock: Option<u64>,
    /// Keys to approve for (default: all of them)
    pub keys: Vec<String>,
}

/// What the caller was asked to do last.
#[derive(Clone, Copy, PartialEq, Eq, Debug, Structural)]
pub enum ApprovalStage {
    /// Nothing yet.
    Start,
    /// To write the policy.
    Policy,
    /// To approve the policy for the key at an index.
    Key(usize),
    /// Nothing more.
    Finished,
}

/// The steps of an approval.
pub struct Approval {
    pub dir: Vec<u8>,
    /// The approver private key.
    pub pk: String,
    /// The name of the approval.
    pub name: String,
    /// The policy file.
    pub policy: Vec<u8>,
    /// The keys to approve for.
    pub keys: Vec<String>,
    pub stage: ApprovalStage,
}

/// What an [`Approval`] stands for.
#[verifier::ext_equal]
pub struct ApprovalView {
    pub dir: Seq<u8>,
    pub pk: Seq<char>,
    pub name: Seq<char>,
    pub policy: Seq<u8>,
    pub keys: Seq<Seq<char>>,
    pub stage: ApprovalStage,
}

/// What a sequence of texts stands for.
pub open spec fn texts(strings: Seq<String>) -> Seq<Seq<char>> {
    strings.map_values(|text: String| text@)
}

impl View for Approval {
    type V = ApprovalView;

    open spec fn view(&self) -> ApprovalView {
        ApprovalView {
            dir: self.dir@,
            pk: self.pk@,
            name: self.name@,
            policy: self.policy@,
            keys: texts(self.keys@),
            stage: self.stage,
        }
    }
}

/// The keys to approve for: those that are named, or all of them.
pub open spec fn approved_keys(named: Seq<Seq<char>>) -> Seq<Seq<char>> {
    if named.len() == 0 {
        seq![key_name(Key::Kek), key_name(Key::Db)]
    } else {
        named
    }
}

impl ApproveCommand {
    /// The approval that the command asks for, before the first step.
    pub open spec fn approval(self) -> Result<ApprovalView, ProvisionError> {
        match pcr_of_text(self.pcr7@) {
            Err(error) => Err(ProvisionError::Output(error)),
            Ok(value) => Ok(
                ApprovalView {
                    dir: self.dir@,
                    pk: self.pk@,
                    name: self.name@,
                    policy: encode_utf8(policy_text(pcr7_policy(value, self.until_clock))),
                    keys: approved_keys(texts(self.keys@)),
                    stage: ApprovalStage::Start,
                },
            ),
        }
    }

    /// The steps of the approval, before the first.
    pub fn start(self) -> (result: Result<Approval, ProvisionError>)
        ensures
            match result {
                Ok(approval) => self.approval() == Ok::<ApprovalView, ProvisionError>(approval@),
                Err(error) => self.approval() == Err::<ApprovalView, ProvisionError>(error),
            },
    {
        let value: [u8; 32] = match parse_pcr(self.pcr7.as_str()) {
            Ok(value) => value,
            Err(error) => {
                return Err(ProvisionError::Output(error));
            },
        };
        let policy = pcr7_policy_file(&value, self.until_clock);
        let ghost named = texts(self.keys@);
        let mut keys: Vec<String> = self.keys;
        if keys.len() == 0 {
            keys.push(Key::Kek.name().to_string());
            keys.push(Key::Db.name().to_string());
        }
        let approval = Approval {
            dir: self.dir,
            pk: self.pk,
            name: self.name,
            policy,
            keys,
            stage: ApprovalStage::Start,
        };
        assert(approval@.keys =~= approved_keys(named));
        Ok(approval)
    }
}

impl ApprovalView {
    /// The same at another stage.
    pub open spec fn at(self, stage: ApprovalStage) -> ApprovalView {
        ApprovalView { stage, ..self }
    }

    /// To approve for the key at an index, or nothing more where there is none.
    pub open spec fn approve(self, index: int) -> (ApprovalView, ActionView) {
        if index < self.keys.len() {
            (
                self.at(ApprovalStage::Key(index as usize)),
                ActionView::Run {
                    command: approval(
                        file_in(self.dir, self.keys[index], ".key"@),
                        self.name,
                        file_in(self.dir, "policy."@, self.name),
                        self.pk,
                    ),
                },
            )
        } else {
            (self.at(ApprovalStage::Finished), ActionView::Finish)
        }
    }
}

/// What follows when the caller has answered.
pub open spec fn approve_next(state: ApprovalView, reply: ReplyView) -> Result<
    (ApprovalView, ActionView),
    ProvisionError,
> {
    match (state.stage, reply) {
        (ApprovalStage::Start, ReplyView::Done) => Ok(
            (
                state.at(ApprovalStage::Policy),
                ActionView::Write {
                    path: file_in(state.dir, "policy."@, state.name),
                    contents: state.policy,
                },
            ),
        ),
        (ApprovalStage::Policy, ReplyView::Done) => Ok(state.approve(0)),
        (ApprovalStage::Key(index), ReplyView::Done) => Ok(state.approve(index + 1)),
        _ => Err(ProvisionError::UnexpectedReply),
    }
}

impl Approval {
    /// What to do next, given the answer to what was asked last ([`Reply::Done`] at the start).
    pub fn next(&mut self, reply: Reply) -> (result: Result<Action, ProvisionError>)
        ensures
            match result {
                Ok(action) => approve_next(old(self)@, reply@) == Ok::<
                    (ApprovalView, ActionView),
                    ProvisionError,
                >((final(self)@, action@)),
                Err(error) => approve_next(old(self)@, reply@) == Err::<
                    (ApprovalView, ActionView),
                    ProvisionError,
                >(error) && final(self)@ == old(self)@,
            },
    {
        match (self.stage, reply) {
            (ApprovalStage::Start, Reply::Done) => {
                self.stage = ApprovalStage::Policy;
                Ok(
                    Action::Write {
                        path: file_path(self.dir.as_slice(), "policy.", self.name.as_str()),
                        contents: to_vec(self.policy.as_slice()),
                    },
                )
            },
            (ApprovalStage::Policy, Reply::Done) => {
                if self.keys.len() == 0 {
                    self.stage = ApprovalStage::Finished;
                    Ok(Action::Finish)
                } else {
                    Ok(self.ask_to_approve(0))
                }
            },
            (ApprovalStage::Key(index), Reply::Done) => {
                if index >= self.keys.len() || index + 1 == self.keys.len() {
                    self.stage = ApprovalStage::Finished;
                    Ok(Action::Finish)
                } else {
                    Ok(self.ask_to_approve(index + 1))
                }
            },
            _ => Err(ProvisionError::UnexpectedReply),
        }
    }

    fn ask_to_approve(&mut self, index: usize) -> (action: Action)
        requires
            index < old(self).keys@.len(),
        ensures
            (final(self)@, action@) == old(self)@.approve(index as int),
    {
        self.stage = ApprovalStage::Key(index);
        let dir: &[u8] = self.dir.as_slice();
        let name: &str = self.name.as_str();
        let key_file = file_path(dir, self.keys[index].as_str(), ".key");
        let policy = file_path(dir, "policy.", name);
        let command = approve_command(
            key_file.as_slice(),
            name,
            policy.as_slice(),
            self.pk.as_str(),
        );
        Action::Run { command }
    }
}

/// How many steps an approval still takes.
pub open spec fn steps_left(state: ApprovalView) -> int {
    match state.stage {
        ApprovalStage::Start => state.keys.len() as int + 2,
        ApprovalStage::Policy => state.keys.len() as int + 1,
        ApprovalStage::Key(index) => if index < state.keys.len() {
            state.keys.len() - index
        } else {
            1
        },
        ApprovalStage::Finished => 0,
    }
}

/// Every step takes the approval one step further: the policy is written, then it is approved for
/// each key once, in order, and then everything is done. What is approved does not change.
pub proof fn law_approval_advances(state: ApprovalView, reply: ReplyView)
    requires
        state.keys.len() <= usize::MAX,
        approve_next(state, reply) is Ok,
    ensures
        ({
            let (next, action) = approve_next(state, reply)->Ok_0;
            &&& steps_left(next) == steps_left(state) - 1
            &&& next == state.at(next.stage)
            &&& steps_left(next) == 0 <==> action == ActionView::Finish
        }),
{
}

/// No answer to what was asked is unexpected, until everything is done.
pub proof fn law_approval_takes_answers(state: ApprovalView, reply: ReplyView, answer: ReplyView)
    requires
        approve_next(state, reply) is Ok,
        answers(answer, approve_next(state, reply)->Ok_0.1),
    ensures
        approve_next(approve_next(state, reply)->Ok_0.0, answer) is Ok,
{
}

/// What an approval is made of: the PCR 7 value that the text gives, on a line of its own in the
/// policy file, with the clock limit on a second line if and only if one is given, whichever keys
/// are named; the keys that are named, or KEK and db where none is; and the directory, the name and
/// the approver as they are given. It is refused only for a text that gives no value.
pub proof fn law_approval(command: ApproveCommand)
    ensures
        match command.approval() {
            Ok(state) => {
                let value = pcr_of_text(command.pcr7@)->Ok_0;
                let pcr_line = hex_text(pcr_policy(seq![(7u8, value)])) + seq!['\n'];
                &&& pcr_of_text(command.pcr7@) is Ok
                &&& command.until_clock is None ==> state.policy == encode_utf8(pcr_line)
                &&& command.until_clock is Some ==> state.policy == encode_utf8(
                    pcr_line + hex_text(policy_counter_timer(command.until_clock->0))
                        + seq!['\n'],
                )
                &&& state.dir == command.dir@
                &&& state.pk == command.pk@
                &&& state.name == command.name@
                &&& command.keys@.len() == 0 ==> state.keys == seq![
                    seq!['K', 'E', 'K'],
                    seq!['d', 'b'],
                ]
                &&& command.keys@.len() > 0 ==> state.keys.len() == command.keys@.len() && forall|
                    i: int,
                |
                    0 <= i < command.keys@.len() ==> #[trigger] state.keys[i] == command.keys@[i]@
                &&& state.stage == ApprovalStage::Start
            },
            Err(error) => pcr_of_text(command.pcr7@) is Err && error == ProvisionError::Output(
                pcr_of_text(command.pcr7@)->Err_0,
            ),
        },
{
    if let Ok(value) = pcr_of_text(command.pcr7@) {
        let pcr = pcr_policy(seq![(7u8, value)]);
        law_key_files(command.dir@);
        law_policy_text_of_one(pcr);
        if let Some(clock) = command.until_clock {
            let timer = policy_counter_timer(clock);
            law_policy_text_of_one(timer);
            law_policy_text_concat(seq![pcr], seq![timer]);
            assert(seq![pcr] + seq![timer] =~= seq![pcr, timer]);
            assert(policy_text(seq![pcr, timer]) =~= hex_text(pcr) + seq!['\n'] + hex_text(timer)
                + seq!['\n']);
        }
    }
}

/// Where an approval is after replies, and what it has asked on the way.
pub open spec fn approve_run(state: ApprovalView, replies: Seq<ReplyView>) -> Result<
    (ApprovalView, Seq<ActionView>),
    ProvisionError,
>
    decreases replies.len(),
{
    if replies.len() == 0 {
        Ok((state, Seq::empty()))
    } else {
        match approve_run(state, replies.drop_last()) {
            Err(error) => Err(error),
            Ok((before, actions)) => match approve_next(before, replies.last()) {
                Err(error) => Err(error),
                Ok((after, action)) => Ok((after, actions.push(action))),
            },
        }
    }
}

/// So many replies that it is done.
pub open spec fn done_times(count: nat) -> Seq<ReplyView> {
    Seq::new(count, |i: int| ReplyView::Done)
}

/// What is asked to approve for one of the keys.
pub open spec fn key_approval(state: ApprovalView, index: int) -> ActionView {
    ActionView::Run {
        command: approval(
            joined(state.dir, encode_utf8(state.keys[index]) + encode_utf8(".key"@)),
            state.name,
            joined(state.dir, encode_utf8("policy."@) + encode_utf8(state.name)),
            state.pk,
        ),
    }
}

/// The first steps of an approval: the policy, and some of the keys.
proof fn lemma_approve_run(state: ApprovalView, count: nat)
    requires
        state.stage == ApprovalStage::Start,
        count <= state.keys.len() <= usize::MAX,
    ensures
        approve_run(state, done_times(count + 1)) == Ok::<
            (ApprovalView, Seq<ActionView>),
            ProvisionError,
        >(
            (
                state.at(
                    if count == 0 {
                        ApprovalStage::Policy
                    } else {
                        ApprovalStage::Key((count - 1) as usize)
                    },
                ),
                seq![
                    ActionView::Write {
                        path: joined(
                            state.dir,
                            encode_utf8("policy."@) + encode_utf8(state.name),
                        ),
                        contents: state.policy,
                    },
                ] + Seq::new(count, |i: int| key_approval(state, i)),
            ),
        ),
    decreases count,
{
    let done = ReplyView::Done;
    law_file_in(state.dir, "policy."@, state.name);
    let write = ActionView::Write {
        path: joined(state.dir, encode_utf8("policy."@) + encode_utf8(state.name)),
        contents: state.policy,
    };
    let replies = done_times(count + 1);
    assert(replies.drop_last() =~= done_times(count));
    if count == 0 {
        assert(done_times(0) =~= Seq::empty());
        assert(approve_run(state, done_times(0)) == Ok::<
            (ApprovalView, Seq<ActionView>),
            ProvisionError,
        >((state, Seq::empty())));
        assert(Seq::<ActionView>::empty().push(write) =~= seq![write] + Seq::new(
            0,
            |i: int| key_approval(state, i),
        ));
    } else {
        let before = (count - 1) as nat;
        lemma_approve_run(state, before);
        law_file_in(state.dir, state.keys[count - 1], ".key"@);
        let actions = seq![write] + Seq::new(before, |i: int| key_approval(state, i));
        assert(actions.push(key_approval(state, count - 1)) =~= seq![write] + Seq::new(
            count,
            |i: int| key_approval(state, i),
        ));
    }
}

/// The whole approval: the policy is written, it is approved for each key, each once and in order,
/// and nothing else is asked.
pub proof fn law_approve_run(state: ApprovalView)
    requires
        state.stage == ApprovalStage::Start,
        state.keys.len() <= usize::MAX,
    ensures
        ({
            let run = approve_run(state, done_times(state.keys.len() + 2));
            &&& run is Ok
            &&& run->Ok_0.1 == seq![
                ActionView::Write {
                    path: joined(state.dir, encode_utf8("policy."@) + encode_utf8(state.name)),
                    contents: state.policy,
                },
            ] + Seq::new(state.keys.len(), |i: int| key_approval(state, i)) + seq![
                ActionView::Finish,
            ]
        }),
{
    let count = state.keys.len();
    lemma_approve_run(state, count);
    assert(done_times(count + 2).drop_last() =~= done_times(count + 1));
    let actions = approve_run(state, done_times(count + 1))->Ok_0.1;
    assert(actions.push(ActionView::Finish) =~= actions + seq![ActionView::Finish]);
}

/// Whatever does not answer what was asked is refused.
pub proof fn law_approval_refusals(state: ApprovalView, reply: ReplyView)
    requires
        !(reply is Done) || state.stage == ApprovalStage::Finished,
    ensures
        approve_next(state, reply) == Err::<(ApprovalView, ActionView), ProvisionError>(
            ProvisionError::UnexpectedReply,
        ),
{
}

} // verus!
