//! Staging the enrollment updates for systemd-boot.

use vstd::prelude::*;
use vstd::utf8::encode_utf8;

use super::action::{
    answers, contents_of_variable, file_in, file_path, law_record_files, law_variable_round_trip,
    law_variable_write, variable_file, variable_path, variable_update, variable_write, Action,
    ActionView, ProvisionError, Reply, ReplyView,
};
use crate::bytes::to_vec;
use crate::command::{command_line, word, Command, CommandView};
use crate::efi::auth::{
    law_update_round_trip, payload, signed_data, signed_payload, signed_update, update_data,
    update_of_signature, variable_name, AuthError, SecureBootVariable,
};
use crate::efi::guid::{global_variable_guid, Guid};
use crate::path::{join, joined};

verus! {

/// The PK to delete, by its key and certificate.
pub struct ClearPk {
    /// The path of the key, if it is valid UTF-8.
    pub key: Option<String>,
    /// The path of the certificate.
    pub certificate: Vec<u8>,
}

/// What a [`ClearPk`] stands for.
#[verifier::ext_equal]
pub struct ClearPkView {
    pub key: Option<Seq<char>>,
    pub certificate: Seq<u8>,
}

impl View for ClearPk {
    type V = ClearPkView;

    open spec fn view(&self) -> ClearPkView {
        ClearPkView {
            key: match self.key {
                Some(key) => Some(key@),
                None => None,
            },
            certificate: self.certificate@,
        }
    }
}

/// What the caller was asked to do last.
#[derive(Clone, Copy, PartialEq, Eq, Debug, Structural)]
pub enum StagingStage {
    /// Nothing yet.
    Start,
    /// To create the directory for the updates.
    Directory,
    /// To read the update of a variable.
    Update(SecureBootVariable),
    /// To write the update of a variable where systemd-boot looks for it.
    Staged(SecureBootVariable),
    /// To give the time.
    Timestamp,
    /// To sign the deletion of the PK.
    Signature,
    /// To make the variable of the PK mutable.
    Unlock,
    /// To write the variable of the PK.
    Deletion,
    /// Nothing more.
    Finished,
}

/// The steps of the staging, and what they have found out.
pub struct Staging {
    /// State directory
    pub dir: Vec<u8>,
    /// Where the EFI system partition is mounted.
    pub esp: Vec<u8>,
    /// The PK to delete.
    pub clear_pk: Option<ClearPk>,
    pub stage: StagingStage,
    /// The time of the deletion.
    pub timestamp: [u8; 16],
    /// The deletion.
    pub update: Vec<u8>,
}

/// What a [`Staging`] stands for.
#[verifier::ext_equal]
pub struct StagingView {
    pub dir: Seq<u8>,
    pub esp: Seq<u8>,
    pub clear_pk: Option<ClearPkView>,
    pub stage: StagingStage,
    pub timestamp: Seq<u8>,
    pub update: Seq<u8>,
}

/// What an optional [`ClearPk`] stands for.
pub open spec fn clear_pk_view(clear_pk: Option<ClearPk>) -> Option<ClearPkView> {
    match clear_pk {
        Some(clear_pk) => Some(clear_pk@),
        None => None,
    }
}

impl View for Staging {
    type V = StagingView;

    open spec fn view(&self) -> StagingView {
        StagingView {
            dir: self.dir@,
            esp: self.esp@,
            clear_pk: clear_pk_view(self.clear_pk),
            stage: self.stage,
            timestamp: self.timestamp@,
            update: self.update@,
        }
    }
}

/// Where systemd-boot looks for the updates to enroll.
pub open spec fn keys_directory(esp: Seq<u8>) -> Seq<u8> {
    joined(esp, word("loader/keys/auto"@))
}

/// How an EFI variable is made mutable.
pub open spec fn unlock(path: Seq<u8>) -> CommandView {
    command_line("chattr"@, seq![word("-i"@), path])
}

impl StagingView {
    /// The same at another stage.
    pub open spec fn at(self, stage: StagingStage) -> StagingView {
        StagingView { stage, ..self }
    }

    /// To read the update of a variable.
    pub open spec fn read_update(self, variable: SecureBootVariable) -> (StagingView, ActionView) {
        (
            self.at(StagingStage::Update(variable)),
            ActionView::Read { path: file_in(self.dir, variable_name(variable), ".auth"@) },
        )
    }
}

/// What follows when the caller has answered.
pub open spec fn stage_next(state: StagingView, reply: ReplyView) -> Result<
    (StagingView, ActionView),
    ProvisionError,
> {
    let pk = variable_file("PK"@, global_variable_guid());
    match (state.stage, reply) {
        (StagingStage::Start, ReplyView::Done) => Ok(
            (
                state.at(StagingStage::Directory),
                ActionView::CreateDirectory { path: keys_directory(state.esp) },
            ),
        ),
        (StagingStage::Directory, ReplyView::Done) => Ok(state.read_update(SecureBootVariable::Pk)),
        (StagingStage::Update(variable), ReplyView::Bytes(update)) => Ok(
            (
                state.at(StagingStage::Staged(variable)),
                ActionView::Write {
                    path: file_in(keys_directory(state.esp), variable_name(variable), ".auth"@),
                    contents: update,
                },
            ),
        ),
        (StagingStage::Staged(SecureBootVariable::Pk), ReplyView::Done) => Ok(
            state.read_update(SecureBootVariable::Kek),
        ),
        (StagingStage::Staged(SecureBootVariable::Kek), ReplyView::Done) => Ok(
            state.read_update(SecureBootVariable::Db),
        ),
        (StagingStage::Staged(SecureBootVariable::Db), ReplyView::Done) => match state.clear_pk {
            Some(_) => Ok((state.at(StagingStage::Timestamp), ActionView::Timestamp)),
            None => Ok((state.at(StagingStage::Finished), ActionView::Finish)),
        },
        (StagingStage::Timestamp, ReplyView::Timestamp(timestamp)) => match state.clear_pk {
            Some(ClearPkView { key: Some(key), certificate }) => Ok(
                (
                    (StagingView { timestamp, ..state }).at(StagingStage::Signature),
                    ActionView::Sign {
                        variable: SecureBootVariable::Pk,
                        payload: payload(SecureBootVariable::Pk, timestamp, Seq::empty()),
                        key,
                        certificate,
                    },
                ),
            ),
            Some(_) => Err(ProvisionError::KeyPath),
            None => Err(ProvisionError::UnexpectedReply),
        },
        (StagingStage::Signature, ReplyView::Bytes(content_info)) => match signed_update(
            state.timestamp,
            content_info,
            Seq::empty(),
        ) {
            Ok(update) => Ok(
                (
                    (StagingView { update, ..state }).at(StagingStage::Unlock),
                    ActionView::Attempt { command: unlock(pk) },
                ),
            ),
            Err(error) => Err(ProvisionError::Auth(error)),
        },
        (StagingStage::Unlock, ReplyView::Done) => Ok(
            (
                state.at(StagingStage::Deletion),
                ActionView::Write { path: pk, contents: variable_write(state.update) },
            ),
        ),
        (StagingStage::Deletion, ReplyView::Done) => Ok(
            (state.at(StagingStage::Finished), ActionView::Finish),
        ),
        _ => Err(ProvisionError::UnexpectedReply),
    }
}

/// Stage the enrollment updates for systemd-boot, and optionally delete the current PK so the
/// next boot is in setup mode.
pub fn stage(dir: &[u8], esp: &[u8], clear_pk: Option<ClearPk>) -> (staging: Staging)
    ensures
        staging@ == (StagingView {
            dir: dir@,
            esp: esp@,
            clear_pk: clear_pk_view(clear_pk),
            stage: StagingStage::Start,
            timestamp: Seq::new(16, |i: int| 0u8),
            update: Seq::empty(),
        }),
{
    let staging = Staging {
        dir: to_vec(dir),
        esp: to_vec(esp),
        clear_pk,
        stage: StagingStage::Start,
        timestamp: [0;16],
        update: Vec::new(),
    };
    assert(staging@.timestamp =~= Seq::new(16, |i: int| 0u8));
    staging
}

impl Staging {
    /// What to do next, given the answer to what was asked last ([`Reply::Done`] at the start).
    #[verifier::rlimit(40)]
    pub fn next(&mut self, reply: Reply) -> (result: Result<Action, ProvisionError>)
        ensures
            match result {
                Ok(action) => stage_next(old(self)@, reply@) == Ok::<
                    (StagingView, ActionView),
                    ProvisionError,
                >((final(self)@, action@)),
                Err(error) => stage_next(old(self)@, reply@) == Err::<
                    (StagingView, ActionView),
                    ProvisionError,
                >(error) && final(self)@ == old(self)@,
            },
    {
        match (self.stage, reply) {
            (StagingStage::Start, Reply::Done) => {
                self.stage = StagingStage::Directory;
                Ok(Action::CreateDirectory { path: self.keys() })
            },
            (StagingStage::Directory, Reply::Done) => Ok(
                self.ask_for_update(SecureBootVariable::Pk),
            ),
            (StagingStage::Update(variable), Reply::Bytes(update)) => {
                self.stage = StagingStage::Staged(variable);
                Ok(
                    Action::Write {
                        path: file_path(self.keys().as_slice(), variable.name(), ".auth"),
                        contents: update,
                    },
                )
            },
            (StagingStage::Staged(SecureBootVariable::Pk), Reply::Done) => Ok(
                self.ask_for_update(SecureBootVariable::Kek),
            ),
            (StagingStage::Staged(SecureBootVariable::Kek), Reply::Done) => Ok(
                self.ask_for_update(SecureBootVariable::Db),
            ),
            (StagingStage::Staged(SecureBootVariable::Db), Reply::Done) => match self.clear_pk {
                Some(_) => {
                    self.stage = StagingStage::Timestamp;
                    Ok(Action::Timestamp)
                },
                None => {
                    self.stage = StagingStage::Finished;
                    Ok(Action::Finish)
                },
            },
            // An empty PK update signed by the current PK deletes it: setup mode.
            (StagingStage::Timestamp, Reply::Timestamp(timestamp)) => {
                let action = self.deletion(&timestamp);
                if action.is_ok() {
                    self.timestamp = timestamp;
                    self.stage = StagingStage::Signature;
                }
                action
            },
            (StagingStage::Signature, Reply::Bytes(content_info)) => {
                let empty: [u8; 0] = [];
                assert(empty@ =~= Seq::empty());
                match update_of_signature(
                    &self.timestamp,
                    content_info.as_slice(),
                    empty.as_slice(),
                ) {
                    Err(error) => Err(ProvisionError::Auth(error)),
                    Ok(update) => {
                        self.update = update;
                        self.stage = StagingStage::Unlock;
                        // efivarfs marks existing variables immutable; lift that for this write
                        // only.
                        let path = variable_path("PK", Guid::global_variable());
                        let mut command = Command::new("chattr");
                        command.push_text("-i");
                        command.push(path.as_slice());
                        assert(command@ =~= unlock(path@));
                        Ok(Action::Attempt { command })
                    },
                }
            },
            // One write: efivarfs rejects updates split across several.
            (StagingStage::Unlock, Reply::Done) => {
                self.stage = StagingStage::Deletion;
                Ok(
                    Action::Write {
                        path: variable_path("PK", Guid::global_variable()),
                        contents: variable_update(self.update.as_slice()),
                    },
                )
            },
            (StagingStage::Deletion, Reply::Done) => {
                self.stage = StagingStage::Finished;
                Ok(Action::Finish)
            },
            _ => Err(ProvisionError::UnexpectedReply),
        }
    }

    /// Where systemd-boot looks for the updates to enroll.
    fn keys(&self) -> (path: Vec<u8>)
        ensures
            path@ == keys_directory(self@.esp),
    {
        join(self.esp.as_slice(), "loader/keys/auto".as_bytes())
    }

    fn ask_for_update(&mut self, variable: SecureBootVariable) -> (action: Action)
        ensures
            (final(self)@, action@) == old(self)@.read_update(variable),
    {
        self.stage = StagingStage::Update(variable);
        Action::Read { path: file_path(self.dir.as_slice(), variable.name(), ".auth") }
    }

    /// To sign the deletion of the PK at a time.
    fn deletion(&self, timestamp: &[u8; 16]) -> (result: Result<Action, ProvisionError>)
        ensures
            match self@.clear_pk {
                Some(ClearPkView { key: Some(key), certificate }) => result is Ok
                    && result->Ok_0@ == (ActionView::Sign {
                    variable: SecureBootVariable::Pk,
                    payload: payload(SecureBootVariable::Pk, timestamp@, Seq::empty()),
                    key,
                    certificate,
                }),
                Some(_) => result == Err::<Action, ProvisionError>(ProvisionError::KeyPath),
                None => result == Err::<Action, ProvisionError>(ProvisionError::UnexpectedReply),
            },
    {
        match &self.clear_pk {
            None => Err(ProvisionError::UnexpectedReply),
            Some(clear_pk) => match &clear_pk.key {
                None => Err(ProvisionError::KeyPath),
                Some(key) => {
                    let empty: [u8; 0] = [];
                    assert(empty@ =~= Seq::empty());
                    Ok(
                        Action::Sign {
                            variable: SecureBootVariable::Pk,
                            payload: signed_payload(
                                SecureBootVariable::Pk,
                                timestamp,
                                empty.as_slice(),
                            ),
                            key: key.clone(),
                            certificate: to_vec(clear_pk.certificate.as_slice()),
                        },
                    )
                },
            },
        }
    }
}

/// How far the staging has come.
pub open spec fn stage_progress(stage: StagingStage) -> int {
    match stage {
        StagingStage::Start => 0,
        StagingStage::Directory => 1,
        StagingStage::Update(SecureBootVariable::Pk) => 2,
        StagingStage::Staged(SecureBootVariable::Pk) => 3,
        StagingStage::Update(SecureBootVariable::Kek) => 4,
        StagingStage::Staged(SecureBootVariable::Kek) => 5,
        StagingStage::Update(_) => 6,
        StagingStage::Staged(_) => 7,
        StagingStage::Timestamp => 8,
        StagingStage::Signature => 9,
        StagingStage::Unlock => 10,
        StagingStage::Deletion => 11,
        StagingStage::Finished => 12,
    }
}

/// Whether the staging can come to a stage: `dbx` is not updated, and the PK is deleted only where
/// that is asked for.
pub open spec fn is_staging_stage(state: StagingView) -> bool {
    match state.stage {
        StagingStage::Update(variable) | StagingStage::Staged(variable) => variable
            != SecureBootVariable::Dbx,
        StagingStage::Timestamp
        | StagingStage::Signature
        | StagingStage::Unlock
        | StagingStage::Deletion => state.clear_pk is Some,
        _ => true,
    }
}

/// Every step brings the staging further, so it ends. The PK is deleted only where that is asked
/// for, and only when all updates are staged.
pub proof fn law_staging_advances(state: StagingView, reply: ReplyView)
    requires
        is_staging_stage(state),
        stage_next(state, reply) is Ok,
    ensures
        ({
            let next = stage_next(state, reply)->Ok_0.0;
            &&& is_staging_stage(next)
            &&& next.clear_pk == state.clear_pk
            &&& stage_progress(state.stage) < stage_progress(next.stage)
            &&& stage_progress(next.stage) == stage_progress(state.stage) + 1 || (next.stage
                == StagingStage::Finished && next.clear_pk is None)
        }),
{
}

/// No answer to what was asked is unexpected, until everything is done.
pub proof fn law_staging_takes_answers(state: StagingView, reply: ReplyView, answer: ReplyView)
    requires
        is_staging_stage(state),
        stage_next(state, reply) is Ok,
        answers(answer, stage_next(state, reply)->Ok_0.1),
    ensures
        stage_next(stage_next(state, reply)->Ok_0.0, answer) != Err::<
            (StagingView, ActionView),
            ProvisionError,
        >(ProvisionError::UnexpectedReply),
{
}

/// What is written to the variable of the PK sets it to nothing, which deletes it.
pub proof fn law_deletion_is_empty(state: StagingView, content_info: Seq<u8>)
    requires
        state.stage == StagingStage::Signature,
        state.timestamp.len() == 16,
        stage_next(state, ReplyView::Bytes(content_info)) is Ok,
    ensures
        ({
            let next = stage_next(state, ReplyView::Bytes(content_info))->Ok_0.0;
            let action = stage_next(next, ReplyView::Done)->Ok_0.1;
            &&& stage_next(next, ReplyView::Done) is Ok
            &&& action is Write
            &&& update_data(contents_of_variable(Some(action->contents))) == Ok::<
                Seq<u8>,
                AuthError,
            >(Seq::empty())
        }),
{
    let bytes = signed_data(content_info)->Ok_0;
    let next = stage_next(state, ReplyView::Bytes(content_info))->Ok_0.0;
    law_update_round_trip(state.timestamp, bytes, Seq::empty());
    law_variable_round_trip(next.update);
}

/// What follows when the caller has answered, as one step of a run.
#[verifier::opaque]
pub open spec fn one_step(state: StagingView, reply: ReplyView) -> Result<
    (StagingView, ActionView),
    ProvisionError,
> {
    stage_next(state, reply)
}

/// Where the staging is after replies, and what it has asked on the way.
pub open spec fn stage_run(state: StagingView, replies: Seq<ReplyView>) -> Result<
    (StagingView, Seq<ActionView>),
    ProvisionError,
>
    decreases replies.len(),
{
    if replies.len() == 0 {
        Ok((state, Seq::empty()))
    } else {
        match stage_run(state, replies.drop_last()) {
            Err(error) => Err(error),
            Ok((before, actions)) => match one_step(before, replies.last()) {
                Err(error) => Err(error),
                Ok((after, action)) => Ok((after, actions.push(action))),
            },
        }
    }
}

/// Whether a reply leads from a state to another by an action.
spec fn leads(
    state: StagingView,
    reply: ReplyView,
    next: StagingView,
    action: ActionView,
) -> bool {
    one_step(state, reply) == Ok::<(StagingView, ActionView), ProvisionError>((next, action))
}

/// Replies that lead from each state to the one behind it.
proof fn lemma_stage_run(
    states: Seq<StagingView>,
    replies: Seq<ReplyView>,
    actions: Seq<ActionView>,
)
    requires
        states.len() == replies.len() + 1,
        actions.len() == replies.len(),
        forall|i: int|
            0 <= i < replies.len() ==> leads(
                states[i],
                #[trigger] replies[i],
                states[i + 1],
                actions[i],
            ),
    ensures
        stage_run(states[0], replies) == Ok::<(StagingView, Seq<ActionView>), ProvisionError>(
            (states.last(), actions),
        ),
    decreases replies.len(),
{
    if replies.len() == 0 {
        assert(actions =~= Seq::empty());
    } else {
        let front = replies.drop_last();
        assert forall|i: int| 0 <= i < front.len() implies leads(
            states.drop_last()[i],
            #[trigger] front[i],
            states.drop_last()[i + 1],
            actions.drop_last()[i],
        ) by {
            assert(front[i] == replies[i]);
        }
        lemma_stage_run(states.drop_last(), front, actions.drop_last());
        let last = replies.len() - 1;
        assert(leads(states[last], replies[last], states[last + 1], actions[last]));
        assert(actions.drop_last().push(actions.last()) =~= actions);
    }
}

/// The replies to stage three updates.
pub open spec fn staging_replies(pk: Seq<u8>, kek: Seq<u8>, db: Seq<u8>) -> Seq<ReplyView> {
    seq![
        ReplyView::Done,
        ReplyView::Done,
        ReplyView::Bytes(pk),
        ReplyView::Done,
        ReplyView::Bytes(kek),
        ReplyView::Done,
        ReplyView::Bytes(db),
        ReplyView::Done,
    ]
}

/// What is asked to stage three updates, before what follows them: each file of the state directory
/// is copied to where systemd-boot looks for it.
pub open spec fn staging_actions(
    dir: Seq<u8>,
    esp: Seq<u8>,
    pk: Seq<u8>,
    kek: Seq<u8>,
    db: Seq<u8>,
) -> Seq<ActionView> {
    let keys = joined(esp, encode_utf8("loader/keys/auto"@));
    seq![
        ActionView::CreateDirectory { path: keys },
        ActionView::Read { path: joined(dir, encode_utf8("PK.auth"@)) },
        ActionView::Write { path: joined(keys, encode_utf8("PK.auth"@)), contents: pk },
        ActionView::Read { path: joined(dir, encode_utf8("KEK.auth"@)) },
        ActionView::Write { path: joined(keys, encode_utf8("KEK.auth"@)), contents: kek },
        ActionView::Read { path: joined(dir, encode_utf8("db.auth"@)) },
        ActionView::Write { path: joined(keys, encode_utf8("db.auth"@)), contents: db },
    ]
}

/// The replies to delete the PK.
pub open spec fn deletion_replies(timestamp: Seq<u8>, content_info: Seq<u8>) -> Seq<ReplyView> {
    seq![
        ReplyView::Timestamp(timestamp),
        ReplyView::Bytes(content_info),
        ReplyView::Done,
        ReplyView::Done,
    ]
}

/// What is asked to delete the PK: an empty update of it is signed by the PK itself, its variable is
/// made mutable, and the update is written to it behind the attributes.
pub open spec fn deletion_actions(
    key: Seq<char>,
    certificate: Seq<u8>,
    timestamp: Seq<u8>,
    content_info: Seq<u8>,
) -> Seq<ActionView> {
    let variable = variable_file("PK"@, global_variable_guid());
    seq![
        ActionView::Sign {
            variable: SecureBootVariable::Pk,
            payload: payload(SecureBootVariable::Pk, timestamp, Seq::empty()),
            key,
            certificate,
        },
        ActionView::Attempt {
            command: CommandView {
                program: "chattr"@,
                environment: None,
                arguments: seq![encode_utf8("-i"@), variable],
            },
        },
        ActionView::Write {
            path: variable,
            contents: seq![0x27u8, 0, 0, 0] + signed_update(
                timestamp,
                content_info,
                Seq::empty(),
            )->Ok_0,
        },
        ActionView::Finish,
    ]
}

/// The states on the way of the staging.
spec fn staging_states(state: StagingView) -> Seq<StagingView> {
    seq![
        state,
        state.at(StagingStage::Directory),
        state.at(StagingStage::Update(SecureBootVariable::Pk)),
        state.at(StagingStage::Staged(SecureBootVariable::Pk)),
        state.at(StagingStage::Update(SecureBootVariable::Kek)),
        state.at(StagingStage::Staged(SecureBootVariable::Kek)),
        state.at(StagingStage::Update(SecureBootVariable::Db)),
        state.at(StagingStage::Staged(SecureBootVariable::Db)),
    ]
}

proof fn lemma_staging_steps(
    state: StagingView,
    pk: Seq<u8>,
    kek: Seq<u8>,
    db: Seq<u8>,
)
    requires
        state.stage == StagingStage::Start,
    ensures
        ({
            let s = staging_states(state);
            let r = staging_replies(pk, kek, db);
            let a = staging_actions(state.dir, state.esp, pk, kek, db);
            &&& leads(s[0], r[0], s[1], a[0])
            &&& leads(s[1], r[1], s[2], a[1])
            &&& leads(s[2], r[2], s[3], a[2])
            &&& leads(s[3], r[3], s[4], a[3])
            &&& leads(s[4], r[4], s[5], a[4])
            &&& leads(s[5], r[5], s[6], a[5])
            &&& leads(s[6], r[6], s[7], a[6])
        }),
{
    law_record_files(state.dir);
    law_record_files(keys_directory(state.esp));
    let s = staging_states(state);
    let r = staging_replies(pk, kek, db);
    let a = staging_actions(state.dir, state.esp, pk, kek, db);
    assert(leads(s[0], r[0], s[1], a[0])) by {
        reveal(one_step);
    }
    assert(leads(s[1], r[1], s[2], a[1])) by {
        reveal(one_step);
    }
    assert(leads(s[2], r[2], s[3], a[2])) by {
        reveal(one_step);
    }
    assert(leads(s[3], r[3], s[4], a[3])) by {
        reveal(one_step);
    }
    assert(leads(s[4], r[4], s[5], a[4])) by {
        reveal(one_step);
    }
    assert(leads(s[5], r[5], s[6], a[5])) by {
        reveal(one_step);
    }
    assert(leads(s[6], r[6], s[7], a[6])) by {
        reveal(one_step);
    }
}

/// The whole staging where no PK is to be deleted: each update is copied, and nothing else is asked.
pub proof fn law_stage_run(state: StagingView, pk: Seq<u8>, kek: Seq<u8>, db: Seq<u8>)
    requires
        state.stage == StagingStage::Start,
        state.clear_pk is None,
    ensures
        stage_run(state, staging_replies(pk, kek, db)) == Ok::<
            (StagingView, Seq<ActionView>),
            ProvisionError,
        >(
            (
                state.at(StagingStage::Finished),
                staging_actions(state.dir, state.esp, pk, kek, db).push(ActionView::Finish),
            ),
        ),
{
    let s = staging_states(state).push(state.at(StagingStage::Finished));
    let r = staging_replies(pk, kek, db);
    let a = staging_actions(state.dir, state.esp, pk, kek, db).push(ActionView::Finish);
    lemma_staging_steps(state, pk, kek, db);
    assert(leads(s[7], r[7], s[8], a[7])) by {
        reveal(one_step);
    }
    assert forall|i: int| 0 <= i < r.len() implies leads(
        s[i],
        #[trigger] r[i],
        s[i + 1],
        a[i],
    ) by {
        assert(i == 0 || i == 1 || i == 2 || i == 3 || i == 4 || i == 5 || i == 6 || i == 7);
    }
    lemma_stage_run(s, r, a);
}

/// The states on the way of the deletion of the PK.
spec fn deletion_states(
    state: StagingView,
    timestamp: Seq<u8>,
    content_info: Seq<u8>,
) -> Seq<StagingView> {
    let timed = StagingView { timestamp, ..state };
    let update = signed_update(timestamp, content_info, Seq::empty())->Ok_0;
    let signed = StagingView { timestamp, update, ..state };
    seq![
        state.at(StagingStage::Timestamp),
        timed.at(StagingStage::Signature),
        signed.at(StagingStage::Unlock),
        signed.at(StagingStage::Deletion),
        signed.at(StagingStage::Finished),
    ]
}

proof fn lemma_deletion_steps(
    state: StagingView,
    key: Seq<char>,
    certificate: Seq<u8>,
    timestamp: Seq<u8>,
    content_info: Seq<u8>,
)
    requires
        state.clear_pk == Some(ClearPkView { key: Some(key), certificate }),
        signed_update(timestamp, content_info, Seq::empty()) is Ok,
    ensures
        ({
            let s = deletion_states(state, timestamp, content_info);
            let r = deletion_replies(timestamp, content_info);
            let a = deletion_actions(key, certificate, timestamp, content_info);
            &&& leads(s[0], r[0], s[1], a[0])
            &&& leads(s[1], r[1], s[2], a[1])
            &&& leads(s[2], r[2], s[3], a[2])
            &&& leads(s[3], r[3], s[4], a[3])
        }),
{
    let s = deletion_states(state, timestamp, content_info);
    let r = deletion_replies(timestamp, content_info);
    let a = deletion_actions(key, certificate, timestamp, content_info);
    law_variable_write(s[2].update);
    assert(leads(s[0], r[0], s[1], a[0])) by {
        reveal(one_step);
    }
    assert(leads(s[1], r[1], s[2], a[1])) by {
        reveal(one_step);
        let variable = variable_file("PK"@, global_variable_guid());
        assert(unlock(variable).arguments =~= seq![encode_utf8("-i"@), variable]);
    }
    assert(leads(s[2], r[2], s[3], a[2])) by {
        reveal(one_step);
    }
    assert(leads(s[3], r[3], s[4], a[3])) by {
        reveal(one_step);
    }
}

/// The whole staging where the PK is to be deleted: each update is copied first, and only then is
/// the PK deleted.
#[verifier::spinoff_prover]
#[verifier::rlimit(40)]
pub proof fn law_stage_run_with_deletion(
    state: StagingView,
    pk: Seq<u8>,
    kek: Seq<u8>,
    db: Seq<u8>,
    key: Seq<char>,
    certificate: Seq<u8>,
    timestamp: Seq<u8>,
    content_info: Seq<u8>,
)
    requires
        state.stage == StagingStage::Start,
        state.clear_pk == Some(ClearPkView { key: Some(key), certificate }),
        signed_update(timestamp, content_info, Seq::empty()) is Ok,
    ensures
        ({
            let run = stage_run(
                state,
                staging_replies(pk, kek, db) + deletion_replies(timestamp, content_info),
            );
            &&& run is Ok
            &&& run->Ok_0.0.stage == StagingStage::Finished
            &&& run->Ok_0.1 == staging_actions(state.dir, state.esp, pk, kek, db).push(
                ActionView::Timestamp,
            ) + deletion_actions(key, certificate, timestamp, content_info)
        }),
{
    let s0 = staging_states(state);
    let s1 = deletion_states(state, timestamp, content_info);
    let r0 = staging_replies(pk, kek, db);
    let r1 = deletion_replies(timestamp, content_info);
    let a0 = staging_actions(state.dir, state.esp, pk, kek, db).push(ActionView::Timestamp);
    let a1 = deletion_actions(key, certificate, timestamp, content_info);
    let s = s0 + s1;
    let r = r0 + r1;
    let a = a0 + a1;
    lemma_staging_steps(state, pk, kek, db);
    lemma_deletion_steps(state, key, certificate, timestamp, content_info);
    assert(leads(s0[7], r0[7], s1[0], ActionView::Timestamp)) by {
        reveal(one_step);
    }
    assert forall|i: int| 0 <= i < r.len() implies leads(
        s[i],
        #[trigger] r[i],
        s[i + 1],
        a[i],
    ) by {
        if i < 8 {
            assert(r[i] == r0[i] && s[i] == s0[i] && a[i] == a0[i]);
            assert(i == 0 || i == 1 || i == 2 || i == 3 || i == 4 || i == 5 || i == 6 || i == 7);
            if i < 7 {
                assert(s[i + 1] == s0[i + 1]);
            } else {
                assert(s[i + 1] == s1[0]);
            }
        } else {
            assert(r[i] == r1[i - 8] && s[i] == s1[i - 8] && a[i] == a1[i - 8] && s[i + 1] == s1[i
                - 7]);
            assert(i == 8 || i == 9 || i == 10 || i == 11);
        }
    }
    lemma_stage_run(s, r, a);
}

/// What is refused on the way: a PK whose key has no path in UTF-8, a signature that makes no
/// update, and whatever does not answer what was asked.
pub proof fn law_staging_refusals(state: StagingView, reply: ReplyView, answer: ReplyView)
    requires
        is_staging_stage(state),
        stage_next(state, reply) is Ok,
    ensures
        ({
            let (next, action) = stage_next(state, reply)->Ok_0;
            let after = stage_next(next, answer);
            &&& !answers(answer, action) ==> after == Err::<
                (StagingView, ActionView),
                ProvisionError,
            >(ProvisionError::UnexpectedReply)
            &&& answers(answer, action) ==> match action {
                ActionView::Timestamp => if next.clear_pk->0.key is None {
                    after == Err::<(StagingView, ActionView), ProvisionError>(
                        ProvisionError::KeyPath,
                    )
                } else {
                    after is Ok
                },
                ActionView::Sign { .. } => match signed_update(
                    next.timestamp,
                    answer->Bytes_0,
                    Seq::empty(),
                ) {
                    Ok(_) => after is Ok,
                    Err(error) => after == Err::<(StagingView, ActionView), ProvisionError>(
                        ProvisionError::Auth(error),
                    ),
                },
                _ => after is Ok,
            }
        }),
{
    match state.stage {
        StagingStage::Start => {},
        StagingStage::Directory => {},
        StagingStage::Update(_) => {},
        StagingStage::Staged(_) => {},
        StagingStage::Timestamp => {},
        StagingStage::Signature => {},
        StagingStage::Unlock => {},
        StagingStage::Deletion => {},
        StagingStage::Finished => {},
    }
}

} // verus!
