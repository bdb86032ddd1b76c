//! Creating the keys in the TPM and recording the current Secure Boot state.
//!
//! This runs on the machine itself, before anything is enrolled. Keys that exist are kept. Behind
//! it, the state directory has the public key of each TPM key, and what `authorize` has to know
//! of the machine: its `dbx`, its PCR 7 and its TPM clock.

use vstd::prelude::*;
use vstd::utf8::encode_utf8;

use super::action::{
    answers, contents_of_variable, file_in, file_path, key_name, law_key_files, law_record_files,
    variable_contents, variable_file, variable_path, Action, ActionView, Key, ProvisionError, Reply,
    ReplyView,
};
use super::output::{
    clock_of_output, decimal, decimal_text, parse_clock_output, parse_pcr7_output, pcr7_of_output,
};
use crate::bytes::to_vec;
use crate::command::{command_line, word, Command, CommandView};
use crate::der::{rsa_public_key_pem, subject_public_key_info};
use crate::efi::guid::{image_security_database_guid, Guid};
use crate::hex::{hex, hex_text};
use crate::path::joined;
use crate::pem::pem_block;
use crate::tpm_key::{create_command, creation, key_file_public, rsa_public_key};

verus! {

/// Create the KEK and db in the TPM and record the current Secure Boot state.
pub struct InitCommand {
    /// State directory; must contain `PK.pub`, the approver's public key
    pub dir: Vec<u8>,
}

/// What the caller was asked to do last.
#[derive(Clone, Copy, PartialEq, Eq, Debug, Structural)]
pub enum InitStage {
    /// Nothing yet.
    Start,
    /// To look for the public key of the approver.
    Approver,
    /// To look for the file of a key.
    KeyFile(Key),
    /// To create a key.
    Creation(Key),
    /// To read the file of a key.
    KeyText(Key),
    /// To write the public key of a key.
    PublicKey(Key),
    /// To read `dbx`.
    Dbx,
    /// To write `dbx` down.
    DbxRecord,
    /// To read PCR 7.
    Pcr,
    /// To write PCR 7 down.
    PcrRecord,
    /// To read the TPM clock.
    Clock,
    /// To write the TPM clock down.
    ClockRecord,
    /// Nothing more.
    Finished,
}

/// The steps of the initialization.
pub struct Init {
    pub dir: Vec<u8>,
    pub stage: InitStage,
}

/// The command that prints PCR 7.
pub open spec fn pcr_read() -> CommandView {
    command_line("tpm2_pcrread"@, seq![word("sha256:7"@)])
}

/// The command that prints the TPM clock.
pub open spec fn clock_read() -> CommandView {
    command_line("tpm2_readclock"@, Seq::empty())
}

/// The public key file of a key file.
pub open spec fn public_key_text(key_file: Seq<char>) -> Result<Seq<char>, ProvisionError> {
    match key_file_public(key_file) {
        Ok((modulus, exponent)) => Ok(
            pem_block("PUBLIC KEY"@, subject_public_key_info(modulus, exponent)),
        ),
        Err(error) => Err(ProvisionError::TpmKey(error)),
    }
}

/// What follows when the caller has answered.
pub open spec fn init_next(dir: Seq<u8>, stage: InitStage, reply: ReplyView) -> Result<
    (InitStage, ActionView),
    ProvisionError,
> {
    match (stage, reply) {
        (InitStage::Start, ReplyView::Done) => Ok(
            (InitStage::Approver, ActionView::Exists { path: file_in(dir, "PK"@, ".pub"@) }),
        ),
        (InitStage::Approver, ReplyView::Exists(answer)) => if answer {
            Ok(look_for_key(dir, Key::Kek))
        } else {
            Err(ProvisionError::NoApprover)
        },
        (InitStage::KeyFile(key), ReplyView::Exists(answer)) => if answer {
            Ok(read_key(dir, key))
        } else {
            Ok(
                (
                    InitStage::Creation(key),
                    ActionView::Run {
                        command: creation(
                            file_in(dir, key_name(key), ".key"@),
                            file_in(dir, "PK"@, ".pub"@),
                        ),
                    },
                ),
            )
        },
        (InitStage::Creation(key), ReplyView::Done) => Ok(read_key(dir, key)),
        (InitStage::KeyText(key), ReplyView::Text(text)) => match public_key_text(text) {
            Ok(pem) => Ok(
                (
                    InitStage::PublicKey(key),
                    ActionView::Write {
                        path: file_in(dir, key_name(key), ".pub"@),
                        contents: encode_utf8(pem),
                    },
                ),
            ),
            Err(error) => Err(error),
        },
        (InitStage::PublicKey(Key::Kek), ReplyView::Done) => Ok(look_for_key(dir, Key::Db)),
        (InitStage::PublicKey(Key::Db), ReplyView::Done) => Ok(
            (
                InitStage::Dbx,
                ActionView::ReadIfPresent {
                    path: variable_file("dbx"@, image_security_database_guid()),
                },
            ),
        ),
        (InitStage::Dbx, ReplyView::Present(contents)) => Ok(
            (
                InitStage::DbxRecord,
                ActionView::Write {
                    path: file_in(dir, "dbx"@, ".esl"@),
                    contents: contents_of_variable(contents),
                },
            ),
        ),
        (InitStage::DbxRecord, ReplyView::Done) => Ok(
            (InitStage::Pcr, ActionView::RunForText { command: pcr_read() }),
        ),
        (InitStage::Pcr, ReplyView::Text(text)) => match pcr7_of_output(text) {
            Ok(value) => Ok(
                (
                    InitStage::PcrRecord,
                    ActionView::Write {
                        path: file_in(dir, "pcr7"@, ".current"@),
                        contents: encode_utf8(hex_text(value)),
                    },
                ),
            ),
            Err(error) => Err(ProvisionError::Output(error)),
        },
        (InitStage::PcrRecord, ReplyView::Done) => Ok(
            (InitStage::Clock, ActionView::RunForText { command: clock_read() }),
        ),
        (InitStage::Clock, ReplyView::Text(text)) => match clock_of_output(text) {
            Ok(clock) => Ok(
                (
                    InitStage::ClockRecord,
                    ActionView::Write {
                        path: file_in(dir, "clock"@, ".current"@),
                        contents: encode_utf8(decimal_text(clock as nat)),
                    },
                ),
            ),
            Err(error) => Err(ProvisionError::Output(error)),
        },
        (InitStage::ClockRecord, ReplyView::Done) => Ok((InitStage::Finished, ActionView::Finish)),
        _ => Err(ProvisionError::UnexpectedReply),
    }
}

/// To look for the file of a key.
pub open spec fn look_for_key(dir: Seq<u8>, key: Key) -> (InitStage, ActionView) {
    (InitStage::KeyFile(key), ActionView::Exists { path: file_in(dir, key_name(key), ".key"@) })
}

/// To read the file of a key.
pub open spec fn read_key(dir: Seq<u8>, key: Key) -> (InitStage, ActionView) {
    (InitStage::KeyText(key), ActionView::ReadText { path: file_in(dir, key_name(key), ".key"@) })
}

impl InitCommand {
    /// The steps of the initialization, before the first.
    pub fn start(self) -> (init: Init)
        ensures
            init.dir == self.dir,
            init.stage == InitStage::Start,
    {
        Init { dir: self.dir, stage: InitStage::Start }
    }
}

impl Init {
    /// What to do next, given the answer to what was asked last ([`Reply::Done`] at the start).
    pub fn next(&mut self, reply: Reply) -> (result: Result<Action, ProvisionError>)
        ensures
            final(self).dir == old(self).dir,
            match result {
                Ok(action) => init_next(old(self).dir@, old(self).stage, reply@) == Ok::<
                    (InitStage, ActionView),
                    ProvisionError,
                >((final(self).stage, action@)),
                Err(error) => init_next(old(self).dir@, old(self).stage, reply@) == Err::<
                    (InitStage, ActionView),
                    ProvisionError,
                >(error) && final(self).stage == old(self).stage,
            },
    {
        match self.step(reply) {
            Ok((stage, action)) => {
                self.stage = stage;
                Ok(action)
            },
            Err(error) => Err(error),
        }
    }

    /// The stage that follows, and what to do to get there.
    fn step(&self, reply: Reply) -> (result: Result<(InitStage, Action), ProvisionError>)
        ensures
            match result {
                Ok((stage, action)) => init_next(self.dir@, self.stage, reply@) == Ok::<
                    (InitStage, ActionView),
                    ProvisionError,
                >((stage, action@)),
                Err(error) => init_next(self.dir@, self.stage, reply@) == Err::<
                    (InitStage, ActionView),
                    ProvisionError,
                >(error),
            },
    {
        let dir: &[u8] = self.dir.as_slice();
        match (self.stage, reply) {
            (InitStage::Start, Reply::Done) => Ok(
                (InitStage::Approver, Action::Exists { path: file_path(dir, "PK", ".pub") }),
            ),
            (InitStage::Approver, Reply::Exists(answer)) => if answer {
                Ok(self.ask_for_key(Key::Kek))
            } else {
                Err(ProvisionError::NoApprover)
            },
            (InitStage::KeyFile(key), Reply::Exists(answer)) => if answer {
                Ok(self.ask_for_key_text(key))
            } else {
                let key_file = file_path(dir, key.name(), ".key");
                let approver = file_path(dir, "PK", ".pub");
                let command = create_command(key_file.as_slice(), approver.as_slice());
                Ok((InitStage::Creation(key), Action::Run { command }))
            },
            (InitStage::Creation(key), Reply::Done) => Ok(self.ask_for_key_text(key)),
            (InitStage::KeyText(key), Reply::Text(text)) => match rsa_public_key(text.as_str()) {
                Ok((modulus, exponent)) => {
                    let pem = rsa_public_key_pem(modulus.as_slice(), exponent);
                    Ok(
                        (
                            InitStage::PublicKey(key),
                            Action::Write {
                                path: file_path(dir, key.name(), ".pub"),
                                contents: to_vec(pem.as_str().as_bytes()),
                            },
                        ),
                    )
                },
                Err(error) => Err(ProvisionError::TpmKey(error)),
            },
            (InitStage::PublicKey(Key::Kek), Reply::Done) => Ok(self.ask_for_key(Key::Db)),
            // dbx is not replaced by enrollment, so it stays part of the PCR 7 state.
            (InitStage::PublicKey(Key::Db), Reply::Done) => Ok(
                (
                    InitStage::Dbx,
                    Action::ReadIfPresent {
                        path: variable_path("dbx", Guid::image_security_database()),
                    },
                ),
            ),
            (InitStage::Dbx, Reply::Present(contents)) => Ok(
                (
                    InitStage::DbxRecord,
                    Action::Write {
                        path: file_path(dir, "dbx", ".esl"),
                        contents: variable_contents(contents),
                    },
                ),
            ),
            (InitStage::DbxRecord, Reply::Done) => {
                let mut command = Command::new("tpm2_pcrread");
                command.push_text("sha256:7");
                assert(command@ =~= pcr_read());
                Ok((InitStage::Pcr, Action::RunForText { command }))
            },
            (InitStage::Pcr, Reply::Text(text)) => match parse_pcr7_output(text.as_str()) {
                Ok(value) => {
                    let record = hex(value.as_slice());
                    Ok(
                        (
                            InitStage::PcrRecord,
                            Action::Write {
                                path: file_path(dir, "pcr7", ".current"),
                                contents: to_vec(record.as_str().as_bytes()),
                            },
                        ),
                    )
                },
                Err(error) => Err(ProvisionError::Output(error)),
            },
            (InitStage::PcrRecord, Reply::Done) => {
                let command = Command::new("tpm2_readclock");
                Ok((InitStage::Clock, Action::RunForText { command }))
            },
            (InitStage::Clock, Reply::Text(text)) => match parse_clock_output(text.as_str()) {
                Ok(clock) => {
                    let record = decimal(clock);
                    Ok(
                        (
                            InitStage::ClockRecord,
                            Action::Write {
                                path: file_path(dir, "clock", ".current"),
                                contents: to_vec(record.as_str().as_bytes()),
                            },
                        ),
                    )
                },
                Err(error) => Err(ProvisionError::Output(error)),
            },
            (InitStage::ClockRecord, Reply::Done) => Ok((InitStage::Finished, Action::Finish)),
            _ => Err(ProvisionError::UnexpectedReply),
        }
    }

    fn ask_for_key(&self, key: Key) -> (result: (InitStage, Action))
        ensures
            (result.0, result.1@) == look_for_key(self.dir@, key),
    {
        (
            InitStage::KeyFile(key),
            Action::Exists { path: file_path(self.dir.as_slice(), key.name(), ".key") },
        )
    }

    fn ask_for_key_text(&self, key: Key) -> (result: (InitStage, Action))
        ensures
            (result.0, result.1@) == read_key(self.dir@, key),
    {
        (
            InitStage::KeyText(key),
            Action::ReadText { path: file_path(self.dir.as_slice(), key.name(), ".key") },
        )
    }
}

/// How far the initialization has come.
pub open spec fn init_progress(stage: InitStage) -> int {
    match stage {
        InitStage::Start => 0,
        InitStage::Approver => 1,
        InitStage::KeyFile(Key::Kek) => 2,
        InitStage::Creation(Key::Kek) => 3,
        InitStage::KeyText(Key::Kek) => 4,
        InitStage::PublicKey(Key::Kek) => 5,
        InitStage::KeyFile(Key::Db) => 6,
        InitStage::Creation(Key::Db) => 7,
        InitStage::KeyText(Key::Db) => 8,
        InitStage::PublicKey(Key::Db) => 9,
        InitStage::Dbx => 10,
        InitStage::DbxRecord => 11,
        InitStage::Pcr => 12,
        InitStage::PcrRecord => 13,
        InitStage::Clock => 14,
        InitStage::ClockRecord => 15,
        InitStage::Finished => 16,
    }
}

/// Every step brings the initialization further, so it ends.
pub proof fn law_init_advances(dir: Seq<u8>, stage: InitStage, reply: ReplyView)
    requires
        init_next(dir, stage, reply) is Ok,
    ensures
        init_progress(stage) < init_progress(init_next(dir, stage, reply)->Ok_0.0),
{
    match stage {
        InitStage::Start => {},
        InitStage::Approver => {},
        InitStage::KeyFile(_) => {},
        InitStage::Creation(_) => {},
        InitStage::KeyText(_) => {},
        InitStage::PublicKey(_) => {},
        InitStage::Dbx => {},
        InitStage::DbxRecord => {},
        InitStage::Pcr => {},
        InitStage::PcrRecord => {},
        InitStage::Clock => {},
        InitStage::ClockRecord => {},
        InitStage::Finished => {},
    }
}

/// A key is created only where the caller has found no file of it: keys that exist are kept.
pub proof fn law_init_keeps_keys(dir: Seq<u8>, stage: InitStage, reply: ReplyView)
    requires
        init_next(dir, stage, reply) is Ok,
        init_next(dir, stage, reply)->Ok_0.1 is Run,
    ensures
        exists|key: Key|
            stage == InitStage::KeyFile(key) && reply == ReplyView::Exists(false) && init_next(
                dir,
                stage,
                reply,
            )->Ok_0.1 == (ActionView::Run {
                command: #[trigger] creation(
                    file_in(dir, key_name(key), ".key"@),
                    file_in(dir, "PK"@, ".pub"@),
                ),
            }),
{
    match stage {
        InitStage::KeyFile(key) => {
            assert(init_next(dir, stage, reply)->Ok_0.1 == (ActionView::Run {
                command: creation(file_in(dir, key_name(key), ".key"@), file_in(dir, "PK"@, ".pub"@)),
            }));
        },
        _ => {},
    }
}

/// No answer to what was asked is unexpected, until everything is done.
pub proof fn law_init_takes_answers(
    dir: Seq<u8>,
    stage: InitStage,
    reply: ReplyView,
    answer: ReplyView,
)
    requires
        init_next(dir, stage, reply) is Ok,
        answers(answer, init_next(dir, stage, reply)->Ok_0.1),
    ensures
        init_next(dir, init_next(dir, stage, reply)->Ok_0.0, answer) != Err::<
            (InitStage, ActionView),
            ProvisionError,
        >(ProvisionError::UnexpectedReply),
{
}

/// What follows when the caller has answered, as one step of a run.
#[verifier::opaque]
pub open spec fn one_step(dir: Seq<u8>, stage: InitStage, reply: ReplyView) -> Result<
    (InitStage, ActionView),
    ProvisionError,
> {
    init_next(dir, stage, reply)
}

/// Where the initialization is after replies from its start, and what it has asked on the way.
pub open spec fn init_run(dir: Seq<u8>, stage: InitStage, replies: Seq<ReplyView>) -> Result<
    (InitStage, Seq<ActionView>),
    ProvisionError,
>
    decreases replies.len(),
{
    if replies.len() == 0 {
        Ok((stage, Seq::empty()))
    } else {
        match init_run(dir, stage, replies.drop_last()) {
            Err(error) => Err(error),
            Ok((before, actions)) => match one_step(dir, before, replies.last()) {
                Err(error) => Err(error),
                Ok((after, action)) => Ok((after, actions.push(action))),
            },
        }
    }
}

/// Whether a reply leads from a stage to another by an action.
spec fn leads(
    dir: Seq<u8>,
    stage: InitStage,
    reply: ReplyView,
    next: InitStage,
    action: ActionView,
) -> bool {
    one_step(dir, stage, reply) == Ok::<(InitStage, ActionView), ProvisionError>((next, action))
}

/// Whether replies lead from a stage to another by actions.
#[verifier::opaque]
spec fn runs(
    dir: Seq<u8>,
    start: InitStage,
    replies: Seq<ReplyView>,
    stage: InitStage,
    actions: Seq<ActionView>,
) -> bool {
    init_run(dir, start, replies) == Ok::<(InitStage, Seq<ActionView>), ProvisionError>(
        (stage, actions),
    )
}

proof fn lemma_runs_nowhere(dir: Seq<u8>, start: InitStage)
    ensures
        runs(dir, start, Seq::empty(), start, Seq::empty()),
{
    reveal(runs);
}

/// One reply more.
proof fn lemma_init_step(
    dir: Seq<u8>,
    start: InitStage,
    replies: Seq<ReplyView>,
    actions: Seq<ActionView>,
    stage: InitStage,
    reply: ReplyView,
    next: InitStage,
    action: ActionView,
)
    requires
        runs(dir, start, replies, stage, actions),
        leads(dir, stage, reply, next, action),
    ensures
        runs(dir, start, replies.push(reply), next, actions.push(action)),
{
    reveal(runs);
    assert(replies.push(reply).drop_last() =~= replies);
}

/// One run behind another.
proof fn lemma_init_runs(
    dir: Seq<u8>,
    start: InitStage,
    first: Seq<ReplyView>,
    first_actions: Seq<ActionView>,
    middle: InitStage,
    second: Seq<ReplyView>,
    second_actions: Seq<ActionView>,
    end: InitStage,
)
    requires
        runs(dir, start, first, middle, first_actions),
        runs(dir, middle, second, end, second_actions),
    ensures
        runs(dir, start, first + second, end, first_actions + second_actions),
    decreases second.len(),
{
    reveal(runs);
    if second.len() == 0 {
        assert(first + second =~= first);
        assert(first_actions + second_actions =~= first_actions);
    } else {
        let (before, actions) = init_run(dir, middle, second.drop_last())->Ok_0;
        lemma_init_runs(
            dir,
            start,
            first,
            first_actions,
            middle,
            second.drop_last(),
            actions,
            before,
        );
        assert((first + second).drop_last() =~= first + second.drop_last());
        let last = second_actions.last();
        assert(first_actions + actions.push(last) =~= (first_actions + actions).push(last));
    }
}

/// The replies on the way of a key through the initialization: its file is there or not, it is
/// created if not, its text, and its public key is written.
pub open spec fn key_replies(found: bool, text: Seq<char>) -> Seq<ReplyView> {
    if found {
        seq![ReplyView::Exists(true), ReplyView::Text(text), ReplyView::Done]
    } else {
        seq![ReplyView::Exists(false), ReplyView::Done, ReplyView::Text(text), ReplyView::Done]
    }
}

/// What is asked on the way of a key, before what comes behind it.
pub open spec fn key_actions(
    key_file: Seq<u8>,
    public_file: Seq<u8>,
    approver: Seq<u8>,
    found: bool,
    text: Seq<char>,
) -> Seq<ActionView> {
    let (modulus, exponent) = key_file_public(text)->Ok_0;
    let written = seq![
        ActionView::ReadText { path: key_file },
        ActionView::Write {
            path: public_file,
            contents: encode_utf8(
                pem_block("PUBLIC KEY"@, subject_public_key_info(modulus, exponent)),
            ),
        },
    ];
    if found {
        written
    } else {
        seq![ActionView::Run { command: creation(key_file, approver) }] + written
    }
}

/// The stage behind a key, and what is asked to come to it.
spec fn behind_key(dir: Seq<u8>, key: Key) -> (InitStage, ActionView) {
    match key {
        Key::Kek => (
            InitStage::KeyFile(Key::Db),
            ActionView::Exists { path: joined(dir, encode_utf8("db.key"@)) },
        ),
        Key::Db => (
            InitStage::Dbx,
            ActionView::ReadIfPresent {
                path: variable_file("dbx"@, image_security_database_guid()),
            },
        ),
    }
}

proof fn lemma_key_steps(dir: Seq<u8>, key: Key, text: Seq<char>)
    requires
        key_file_public(text) is Ok,
    ensures
        ({
            let approver = joined(dir, encode_utf8("PK.pub"@));
            let key_file = file_in(dir, key_name(key), ".key"@);
            let read = ActionView::ReadText { path: key_file };
            let (modulus, exponent) = key_file_public(text)->Ok_0;
            let write = ActionView::Write {
                path: file_in(dir, key_name(key), ".pub"@),
                contents: encode_utf8(
                    pem_block("PUBLIC KEY"@, subject_public_key_info(modulus, exponent)),
                ),
            };
            let create = ActionView::Run { command: creation(key_file, approver) };
            let start = InitStage::KeyFile(key);
            &&& leads(dir, start, ReplyView::Exists(true), InitStage::KeyText(key), read)
            &&& leads(dir, start, ReplyView::Exists(false), InitStage::Creation(key), create)
            &&& leads(
                dir,
                InitStage::Creation(key),
                ReplyView::Done,
                InitStage::KeyText(key),
                read,
            )
            &&& leads(
                dir,
                InitStage::KeyText(key),
                ReplyView::Text(text),
                InitStage::PublicKey(key),
                write,
            )
            &&& leads(
                dir,
                InitStage::PublicKey(key),
                ReplyView::Done,
                behind_key(dir, key).0,
                behind_key(dir, key).1,
            )
        }),
{
    reveal(one_step);
    law_key_files(dir);
}

proof fn lemma_key_run(dir: Seq<u8>, key: Key, found: bool, text: Seq<char>)
    requires
        key_file_public(text) is Ok,
    ensures
        runs(
            dir,
            InitStage::KeyFile(key),
            key_replies(found, text),
            behind_key(dir, key).0,
            key_actions(
                file_in(dir, key_name(key), ".key"@),
                file_in(dir, key_name(key), ".pub"@),
                joined(dir, encode_utf8("PK.pub"@)),
                found,
                text,
            ).push(behind_key(dir, key).1),
        ),
{
    let start = InitStage::KeyFile(key);
    let r0 = Seq::<ReplyView>::empty();
    let a0 = Seq::<ActionView>::empty();
    let approver = joined(dir, encode_utf8("PK.pub"@));
    let key_file = file_in(dir, key_name(key), ".key"@);
    let read = ActionView::ReadText { path: key_file };
    let (modulus, exponent) = key_file_public(text)->Ok_0;
    let write = ActionView::Write {
        path: file_in(dir, key_name(key), ".pub"@),
        contents: encode_utf8(pem_block("PUBLIC KEY"@, subject_public_key_info(modulus, exponent))),
    };
    let create = ActionView::Run { command: creation(key_file, approver) };
    lemma_key_steps(dir, key, text);
    lemma_runs_nowhere(dir, start);
    let there = ReplyView::Exists(true);
    let missing = ReplyView::Exists(false);
    let done = ReplyView::Done;
    let reading = InitStage::KeyText(key);
    if found {
        lemma_init_step(dir, start, r0, a0, start, there, reading, read);
    } else {
        lemma_init_step(dir, start, r0, a0, start, missing, InitStage::Creation(key), create);
        lemma_init_step(
            dir,
            start,
            r0.push(missing),
            a0.push(create),
            InitStage::Creation(key),
            done,
            reading,
            read,
        );
    }
    let r = if found {
        r0.push(there)
    } else {
        r0.push(missing).push(done)
    };
    let a = if found {
        a0.push(read)
    } else {
        a0.push(create).push(read)
    };
    let t = ReplyView::Text(text);
    lemma_init_step(dir, start, r, a, reading, t, InitStage::PublicKey(key), write);
    lemma_init_step(
        dir,
        start,
        r.push(t),
        a.push(write),
        InitStage::PublicKey(key),
        done,
        behind_key(dir, key).0,
        behind_key(dir, key).1,
    );
    assert(r.push(t).push(done) =~= key_replies(found, text));
    assert(a.push(write) =~= key_actions(
        key_file,
        file_in(dir, key_name(key), ".pub"@),
        approver,
        found,
        text,
    ));
}

/// The replies that record the state of the machine.
pub open spec fn state_replies(
    dbx: Option<Seq<u8>>,
    pcr_output: Seq<char>,
    clock_output: Seq<char>,
) -> Seq<ReplyView> {
    seq![
        ReplyView::Present(dbx),
        ReplyView::Done,
        ReplyView::Text(pcr_output),
        ReplyView::Done,
        ReplyView::Text(clock_output),
        ReplyView::Done,
    ]
}

/// What is asked to record the state of the machine: `dbx` without its attributes, PCR 7 in
/// hexadecimal and the clock in decimal.
pub open spec fn state_actions(
    dir: Seq<u8>,
    dbx: Option<Seq<u8>>,
    pcr_output: Seq<char>,
    clock_output: Seq<char>,
) -> Seq<ActionView> {
    seq![
        ActionView::Write {
            path: joined(dir, encode_utf8("dbx.esl"@)),
            contents: match dbx {
                Some(bytes) => if bytes.len() >= 4 {
                    bytes.skip(4)
                } else {
                    Seq::empty()
                },
                None => Seq::empty(),
            },
        },
        ActionView::RunForText {
            command: CommandView {
                program: "tpm2_pcrread"@,
                environment: None,
                arguments: seq![encode_utf8("sha256:7"@)],
            },
        },
        ActionView::Write {
            path: joined(dir, encode_utf8("pcr7.current"@)),
            contents: encode_utf8(hex_text(pcr7_of_output(pcr_output)->Ok_0)),
        },
        ActionView::RunForText {
            command: CommandView {
                program: "tpm2_readclock"@,
                environment: None,
                arguments: Seq::empty(),
            },
        },
        ActionView::Write {
            path: joined(dir, encode_utf8("clock.current"@)),
            contents: encode_utf8(decimal_text(clock_of_output(clock_output)->Ok_0 as nat)),
        },
        ActionView::Finish,
    ]
}

proof fn lemma_state_steps(
    dir: Seq<u8>,
    dbx: Option<Seq<u8>>,
    pcr_output: Seq<char>,
    clock_output: Seq<char>,
)
    requires
        pcr7_of_output(pcr_output) is Ok,
        clock_of_output(clock_output) is Ok,
    ensures
        ({
            let a = state_actions(dir, dbx, pcr_output, clock_output);
            let r = state_replies(dbx, pcr_output, clock_output);
            &&& leads(dir, InitStage::Dbx, r[0], InitStage::DbxRecord, a[0])
            &&& leads(dir, InitStage::DbxRecord, r[1], InitStage::Pcr, a[1])
            &&& leads(dir, InitStage::Pcr, r[2], InitStage::PcrRecord, a[2])
            &&& leads(dir, InitStage::PcrRecord, r[3], InitStage::Clock, a[3])
            &&& leads(dir, InitStage::Clock, r[4], InitStage::ClockRecord, a[4])
            &&& leads(dir, InitStage::ClockRecord, r[5], InitStage::Finished, a[5])
        }),
{
    reveal(one_step);
    law_record_files(dir);
    assert(pcr_read().arguments =~= seq![encode_utf8("sha256:7"@)]);
}

proof fn lemma_state_run(
    dir: Seq<u8>,
    dbx: Option<Seq<u8>>,
    pcr_output: Seq<char>,
    clock_output: Seq<char>,
)
    requires
        pcr7_of_output(pcr_output) is Ok,
        clock_of_output(clock_output) is Ok,
    ensures
        runs(
            dir,
            InitStage::Dbx,
            state_replies(dbx, pcr_output, clock_output),
            InitStage::Finished,
            state_actions(dir, dbx, pcr_output, clock_output),
        ),
{
    let start = InitStage::Dbx;
    let a = state_actions(dir, dbx, pcr_output, clock_output);
    let r = state_replies(dbx, pcr_output, clock_output);
    let r0 = Seq::<ReplyView>::empty();
    let a0 = Seq::<ActionView>::empty();
    let r1 = r0.push(r[0]);
    let a1 = a0.push(a[0]);
    let r2 = r1.push(r[1]);
    let a2 = a1.push(a[1]);
    let r3 = r2.push(r[2]);
    let a3 = a2.push(a[2]);
    let r4 = r3.push(r[3]);
    let a4 = a3.push(a[3]);
    let r5 = r4.push(r[4]);
    let a5 = a4.push(a[4]);
    lemma_state_steps(dir, dbx, pcr_output, clock_output);
    lemma_runs_nowhere(dir, start);
    lemma_init_step(dir, start, r0, a0, start, r[0], InitStage::DbxRecord, a[0]);
    lemma_init_step(dir, start, r1, a1, InitStage::DbxRecord, r[1], InitStage::Pcr, a[1]);
    lemma_init_step(dir, start, r2, a2, InitStage::Pcr, r[2], InitStage::PcrRecord, a[2]);
    lemma_init_step(dir, start, r3, a3, InitStage::PcrRecord, r[3], InitStage::Clock, a[3]);
    lemma_init_step(dir, start, r4, a4, InitStage::Clock, r[4], InitStage::ClockRecord, a[4]);
    lemma_init_step(dir, start, r5, a5, InitStage::ClockRecord, r[5], InitStage::Finished, a[5]);
    assert(r5.push(r[5]) =~= r);
    assert(a5.push(a[5]) =~= a);
}

/// The whole initialization, from the first question to the last: the public key of the approver is
/// looked for; then, for KEK and then for db, the key file is looked for, created if it is not
/// there, read, and its public key written; then `dbx`, PCR 7 and the clock are recorded.
pub proof fn law_init_run(
    dir: Seq<u8>,
    kek_found: bool,
    kek_text: Seq<char>,
    db_found: bool,
    db_text: Seq<char>,
    dbx: Option<Seq<u8>>,
    pcr_output: Seq<char>,
    clock_output: Seq<char>,
)
    requires
        key_file_public(kek_text) is Ok,
        key_file_public(db_text) is Ok,
        pcr7_of_output(pcr_output) is Ok,
        clock_of_output(clock_output) is Ok,
    ensures
        ({
            let approver = joined(dir, encode_utf8("PK.pub"@));
            let kek_file = joined(dir, encode_utf8("KEK.key"@));
            let kek_public = joined(dir, encode_utf8("KEK.pub"@));
            let db_file = joined(dir, encode_utf8("db.key"@));
            let db_public = joined(dir, encode_utf8("db.pub"@));
            let replies = seq![ReplyView::Done, ReplyView::Exists(true)] + key_replies(
                kek_found,
                kek_text,
            ) + key_replies(db_found, db_text) + state_replies(dbx, pcr_output, clock_output);
            init_run(dir, InitStage::Start, replies) == Ok::<
                (InitStage, Seq<ActionView>),
                ProvisionError,
            >(
                (
                    InitStage::Finished,
                    seq![
                        ActionView::Exists { path: approver },
                        ActionView::Exists { path: kek_file },
                    ] + key_actions(kek_file, kek_public, approver, kek_found, kek_text).push(
                        ActionView::Exists { path: db_file },
                    ) + key_actions(db_file, db_public, approver, db_found, db_text).push(
                        ActionView::ReadIfPresent {
                            path: variable_file("dbx"@, image_security_database_guid()),
                        },
                    ) + state_actions(dir, dbx, pcr_output, clock_output),
                ),
            )
        }),
{
    law_key_files(dir);
    let approver = joined(dir, encode_utf8("PK.pub"@));
    let kek_file = joined(dir, encode_utf8("KEK.key"@));
    let start = InitStage::Start;
    let kek = InitStage::KeyFile(Key::Kek);
    let db = InitStage::KeyFile(Key::Db);
    let first = seq![ReplyView::Done, ReplyView::Exists(true)];
    let first_asked = seq![
        ActionView::Exists { path: approver },
        ActionView::Exists { path: kek_file },
    ];
    lemma_first_run(dir);
    let second = key_replies(kek_found, kek_text);
    let second_asked = key_actions(
        kek_file,
        joined(dir, encode_utf8("KEK.pub"@)),
        approver,
        kek_found,
        kek_text,
    ).push(behind_key(dir, Key::Kek).1);
    lemma_key_run(dir, Key::Kek, kek_found, kek_text);
    lemma_init_runs(dir, start, first, first_asked, kek, second, second_asked, db);
    let third = key_replies(db_found, db_text);
    let third_asked = key_actions(
        joined(dir, encode_utf8("db.key"@)),
        joined(dir, encode_utf8("db.pub"@)),
        approver,
        db_found,
        db_text,
    ).push(behind_key(dir, Key::Db).1);
    lemma_key_run(dir, Key::Db, db_found, db_text);
    let so_far = first + second;
    let asked = first_asked + second_asked;
    lemma_init_runs(dir, start, so_far, asked, db, third, third_asked, InitStage::Dbx);
    lemma_state_run(dir, dbx, pcr_output, clock_output);
    lemma_init_runs(
        dir,
        start,
        so_far + third,
        asked + third_asked,
        InitStage::Dbx,
        state_replies(dbx, pcr_output, clock_output),
        state_actions(dir, dbx, pcr_output, clock_output),
        InitStage::Finished,
    );
    reveal(runs);
}

/// The first two questions.
proof fn lemma_first_run(dir: Seq<u8>)
    ensures
        runs(
            dir,
            InitStage::Start,
            seq![ReplyView::Done, ReplyView::Exists(true)],
            InitStage::KeyFile(Key::Kek),
            seq![
                ActionView::Exists { path: joined(dir, encode_utf8("PK.pub"@)) },
                ActionView::Exists { path: joined(dir, encode_utf8("KEK.key"@)) },
            ],
        ),
{
    law_key_files(dir);
    let start = InitStage::Start;
    let r0 = Seq::<ReplyView>::empty();
    let a0 = Seq::<ActionView>::empty();
    let approver = ActionView::Exists { path: joined(dir, encode_utf8("PK.pub"@)) };
    let kek = ActionView::Exists { path: joined(dir, encode_utf8("KEK.key"@)) };
    let looking = InitStage::KeyFile(Key::Kek);
    let there = ReplyView::Exists(true);
    let done = ReplyView::Done;
    assert(leads(dir, start, done, InitStage::Approver, approver) && leads(
        dir,
        InitStage::Approver,
        there,
        looking,
        kek,
    )) by {
        reveal(one_step);
    }
    lemma_runs_nowhere(dir, start);
    lemma_init_step(dir, start, r0, a0, start, done, InitStage::Approver, approver);
    lemma_init_step(
        dir,
        start,
        r0.push(done),
        a0.push(approver),
        InitStage::Approver,
        there,
        looking,
        kek,
    );
    assert(r0.push(done).push(there) =~= seq![done, there]);
    assert(a0.push(approver).push(kek) =~= seq![approver, kek]);
}

/// Whether, in a run, the file of a key was read and the public key in what was read was written to
/// the public key file.
pub open spec fn exported(
    replies: Seq<ReplyView>,
    actions: Seq<ActionView>,
    key_file: Seq<u8>,
    public_file: Seq<u8>,
) -> bool {
    exists|i: int|
        0 <= i && i + 1 < actions.len() && i + 1 < replies.len() && #[trigger] actions[i] == (
        ActionView::ReadText { path: key_file }) && replies[i + 1] is Text && key_file_public(
            replies[i + 1]->Text_0,
        ) is Ok && actions[i + 1] == (ActionView::Write {
            path: public_file,
            contents: encode_utf8(
                pem_block(
                    "PUBLIC KEY"@,
                    subject_public_key_info(
                        key_file_public(replies[i + 1]->Text_0)->Ok_0.0,
                        key_file_public(replies[i + 1]->Text_0)->Ok_0.1,
                    ),
                ),
            ),
        })
}

proof fn lemma_exported_stays(
    replies: Seq<ReplyView>,
    actions: Seq<ActionView>,
    key_file: Seq<u8>,
    public_file: Seq<u8>,
    reply: ReplyView,
    action: ActionView,
)
    requires
        exported(replies, actions, key_file, public_file),
    ensures
        exported(replies.push(reply), actions.push(action), key_file, public_file),
{
    let i = choose|i: int|
        0 <= i && i + 1 < actions.len() && i + 1 < replies.len() && #[trigger] actions[i] == (
        ActionView::ReadText { path: key_file }) && replies[i + 1] is Text && key_file_public(
            replies[i + 1]->Text_0,
        ) is Ok && actions[i + 1] == (ActionView::Write {
            path: public_file,
            contents: encode_utf8(
                pem_block(
                    "PUBLIC KEY"@,
                    subject_public_key_info(
                        key_file_public(replies[i + 1]->Text_0)->Ok_0.0,
                        key_file_public(replies[i + 1]->Text_0)->Ok_0.1,
                    ),
                ),
            ),
        });
    assert(actions.push(action)[i] == actions[i]);
    assert(actions.push(action)[i + 1] == actions[i + 1]);
    assert(replies.push(reply)[i + 1] == replies[i + 1]);
}

proof fn lemma_exported_on_the_way(dir: Seq<u8>, replies: Seq<ReplyView>)
    requires
        init_run(dir, InitStage::Start, replies) is Ok,
    ensures
        ({
            let (stage, actions) = init_run(dir, InitStage::Start, replies)->Ok_0;
            &&& actions.len() == replies.len()
            &&& stage is KeyText ==> actions.len() > 0 && actions.last() == (ActionView::ReadText {
                path: file_in(dir, key_name(stage->KeyText_0), ".key"@),
            })
            &&& init_progress(stage) >= 5 ==> exported(
                replies,
                actions,
                file_in(dir, key_name(Key::Kek), ".key"@),
                file_in(dir, key_name(Key::Kek), ".pub"@),
            )
            &&& init_progress(stage) >= 9 ==> exported(
                replies,
                actions,
                file_in(dir, key_name(Key::Db), ".key"@),
                file_in(dir, key_name(Key::Db), ".pub"@),
            )
        }),
    decreases replies.len(),
{
    if replies.len() > 0 {
        let front = replies.drop_last();
        let reply = replies.last();
        lemma_exported_on_the_way(dir, front);
        let (before, actions) = init_run(dir, InitStage::Start, front)->Ok_0;
        let (stage, action) = one_step(dir, before, reply)->Ok_0;
        assert(one_step(dir, before, reply) == init_next(dir, before, reply)) by {
            reveal(one_step);
        }
        law_init_advances(dir, before, reply);
        lemma_init_entry(dir, before, reply);
        assert(front.push(reply) =~= replies);
        let kek_file = file_in(dir, key_name(Key::Kek), ".key"@);
        let kek_public = file_in(dir, key_name(Key::Kek), ".pub"@);
        let db_file = file_in(dir, key_name(Key::Db), ".key"@);
        let db_public = file_in(dir, key_name(Key::Db), ".pub"@);
        if init_progress(before) >= 5 {
            lemma_exported_stays(front, actions, kek_file, kek_public, reply, action);
        }
        if init_progress(before) >= 9 {
            lemma_exported_stays(front, actions, db_file, db_public, reply, action);
        }
        if stage is PublicKey {
            let i = actions.len() - 1;
            assert(actions.push(action)[i] == actions.last());
            assert(actions.push(action)[i + 1] == action);
            assert(replies[i + 1] == reply);
        }
    }
}

/// How the stages of a key are entered.
proof fn lemma_init_entry(dir: Seq<u8>, before: InitStage, reply: ReplyView)
    requires
        init_next(dir, before, reply) is Ok,
    ensures
        ({
            let (stage, action) = init_next(dir, before, reply)->Ok_0;
            &&& stage is KeyText ==> action == (ActionView::ReadText {
                path: file_in(dir, key_name(stage->KeyText_0), ".key"@),
            })
            &&& stage is PublicKey ==> before == InitStage::KeyText(stage->PublicKey_0)
                && reply is Text && key_file_public(reply->Text_0) is Ok && action == (
            ActionView::Write {
                path: file_in(dir, key_name(stage->PublicKey_0), ".pub"@),
                contents: encode_utf8(
                    pem_block(
                        "PUBLIC KEY"@,
                        subject_public_key_info(
                            key_file_public(reply->Text_0)->Ok_0.0,
                            key_file_public(reply->Text_0)->Ok_0.1,
                        ),
                    ),
                ),
            })
            &&& init_progress(stage) >= 5 ==> init_progress(before) >= 5 || stage
                == InitStage::PublicKey(Key::Kek)
            &&& init_progress(stage) >= 9 ==> init_progress(before) >= 9 || stage
                == InitStage::PublicKey(Key::Db)
        }),
{
    match before {
        InitStage::Start => {},
        InitStage::Approver => {},
        InitStage::KeyFile(_) => {},
        InitStage::Creation(_) => {},
        InitStage::KeyText(_) => {},
        InitStage::PublicKey(_) => {},
        InitStage::Dbx => {},
        InitStage::DbxRecord => {},
        InitStage::Pcr => {},
        InitStage::PcrRecord => {},
        InitStage::Clock => {},
        InitStage::ClockRecord => {},
        InitStage::Finished => {},
    }
}

/// Every run that comes to its end, whatever was answered on the way, has read the key file of both
/// keys and has written the public key of each, whether the key was there or was created.
pub proof fn law_init_exports_both_keys(dir: Seq<u8>, replies: Seq<ReplyView>)
    requires
        init_run(dir, InitStage::Start, replies) is Ok,
        init_run(dir, InitStage::Start, replies)->Ok_0.1.len() > 0,
        init_run(dir, InitStage::Start, replies)->Ok_0.1.last() == ActionView::Finish,
    ensures
        ({
            let actions = init_run(dir, InitStage::Start, replies)->Ok_0.1;
            &&& exported(
                replies,
                actions,
                joined(dir, encode_utf8("KEK.key"@)),
                joined(dir, encode_utf8("KEK.pub"@)),
            )
            &&& exported(
                replies,
                actions,
                joined(dir, encode_utf8("db.key"@)),
                joined(dir, encode_utf8("db.pub"@)),
            )
        }),
{
    law_key_files(dir);
    lemma_exported_on_the_way(dir, replies);
    let before = init_run(dir, InitStage::Start, replies.drop_last())->Ok_0.0;
    assert(one_step(dir, before, replies.last())->Ok_0.1 == ActionView::Finish);
    assert(one_step(dir, before, replies.last()) == init_next(dir, before, replies.last())) by {
        reveal(one_step);
    }
    lemma_finish_is_last(dir, before, replies.last());
}

proof fn lemma_finish_is_last(dir: Seq<u8>, before: InitStage, reply: ReplyView)
    requires
        init_next(dir, before, reply) is Ok,
        init_next(dir, before, reply)->Ok_0.1 == ActionView::Finish,
    ensures
        init_next(dir, before, reply)->Ok_0.0 == InitStage::Finished,
{
}

/// What is refused on the way: an approver that is not there, a key file without a readable public
/// key, and outputs without a value, each with the reason; and whatever does not answer what was
/// asked.
pub proof fn law_init_refusals(
    dir: Seq<u8>,
    stage: InitStage,
    reply: ReplyView,
    answer: ReplyView,
)
    requires
        init_next(dir, stage, reply) is Ok,
    ensures
        ({
            let (next, action) = init_next(dir, stage, reply)->Ok_0;
            let after = init_next(dir, next, answer);
            &&& !answers(answer, action) ==> after == Err::<(InitStage, ActionView), ProvisionError>(
                ProvisionError::UnexpectedReply,
            )
            &&& answers(answer, action) ==> match after {
                Ok(_) => true,
                Err(error) => match action {
                    ActionView::Exists { .. } => stage == InitStage::Start && answer
                        == ReplyView::Exists(false) && error == ProvisionError::NoApprover,
                    ActionView::ReadText { .. } => key_file_public(answer->Text_0) is Err && error
                        == ProvisionError::TpmKey(key_file_public(answer->Text_0)->Err_0),
                    ActionView::RunForText { .. } => stage == InitStage::DbxRecord
                        && pcr7_of_output(answer->Text_0) is Err && error == ProvisionError::Output(
                        pcr7_of_output(answer->Text_0)->Err_0,
                    ) || stage == InitStage::PcrRecord && clock_of_output(answer->Text_0) is Err
                        && error == ProvisionError::Output(clock_of_output(answer->Text_0)->Err_0),
                    _ => false,
                },
            }
        }),
{
    match stage {
        InitStage::Start => {},
        InitStage::Approver => {},
        InitStage::KeyFile(_) => {},
        InitStage::Creation(_) => {},
        InitStage::KeyText(_) => {},
        InitStage::PublicKey(_) => {},
        InitStage::Dbx => {},
        InitStage::DbxRecord => {},
        InitStage::Pcr => {},
        InitStage::PcrRecord => {},
        InitStage::Clock => {},
        InitStage::ClockRecord => {},
        InitStage::Finished => {},
    }
}

} // verus!
