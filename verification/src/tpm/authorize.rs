//! Issuing certificates, enrollment updates and PCR 7 approvals.
//!
//! This runs where the approver key is, on the state directory that `init` has filled. It
//! approves two states for the TPM keys: the one that the machine will have when the new keys are
//! enrolled, for good, and the one it has now, until a deadline of the TPM clock.

use vstd::prelude::*;
use vstd::utf8::encode_utf8;

use super::action::{
    answers, file_in, file_path, key_name, law_file_in, law_key_files, law_record_files, Action,
    ActionView, Key, ProvisionError, Reply, ReplyView,
};
use super::output::{clock_of_text, parse_clock, parse_pcr, pcr_of_text, trim, trimmed};
use crate::bytes::to_vec;
use crate::command::{command_line, word, Command, CommandView};
use crate::efi::auth::{
    law_update_round_trip, payload, signed_data, signed_payload, signed_update, update_data,
    update_of_signature, variable_name, AuthError, SecureBootVariable,
};
use crate::efi::guid::{lemma_guid_lengths, random_guid, Guid};
use crate::efi::signature_list::{
    law_lists_round_trip, lists_bytes, x509_entries, EntryView, ListView, SignatureList,
};
use crate::hex::{hex, hex_text};
use crate::pcr7::{
    authority_in, boot_events, predict, replayed, reset_value, SecureBootState, StateView,
};
use crate::path::joined;
use crate::pem::{pem_contents, pem_decode};
use crate::tpm_key::{
    approval, approve_command, pcr_policy, pcr_views, policy_counter_timer, policy_text, Policy,
};

verus! {

/// Issue certificates, enrollment updates and PCR 7 approvals (run where the approver is).
pub struct AuthorizeCommand {
    /// State directory, as written by `init`
    pub dir: Vec<u8>,
    /// The PK private key: anything OpenSSL can load (a PEM file, or e.g. a `pkcs11:` URI)
    pub pk: String,
    /// The PK certificate (PEM)
    pub pk_certificate: Vec<u8>,
    /// Signature owner GUID for the enrolled certificates (random by default)
    pub owner: Option<Guid>,
    /// How long the current Secure Boot state stays approved, counted from `init`
    pub transition_minutes: u64,
}

/// What an [`AuthorizeCommand`] stands for.
#[verifier::ext_equal]
pub struct AuthorizeCommandView {
    pub dir: Seq<u8>,
    pub pk: Seq<char>,
    pub pk_certificate: Seq<u8>,
    pub owner: Option<Seq<u8>>,
    pub transition_minutes: u64,
}

impl View for AuthorizeCommand {
    type V = AuthorizeCommandView;

    open spec fn view(&self) -> AuthorizeCommandView {
        AuthorizeCommandView {
            dir: self.dir@,
            pk: self.pk@,
            pk_certificate: self.pk_certificate@,
            owner: match self.owner {
                Some(owner) => Some(owner@),
                None => None,
            },
            transition_minutes: self.transition_minutes,
        }
    }
}

/// What the caller was asked to do last.
#[derive(Clone, Copy, PartialEq, Eq, Debug, Structural)]
pub enum AuthorizeStage {
    /// Nothing yet.
    Start,
    /// To give random bytes for the owner GUID.
    Owner,
    /// To issue the certificate of a key.
    Certificate(Key),
    /// To read the certificate of the PK.
    PkCertificate,
    /// To read the certificate of a key.
    KeyCertificate(Key),
    /// To give the time.
    Timestamp,
    /// To sign the update of a variable.
    Signature(SecureBootVariable),
    /// To write the update of a variable.
    Update(SecureBootVariable),
    /// To read the recorded `dbx`.
    Dbx,
    /// To write the predicted PCR 7 down.
    Prediction,
    /// To read the recorded PCR 7.
    Current,
    /// To read the recorded TPM clock.
    Clock,
    /// To write the policy for the enrolled state.
    EnrolledPolicy,
    /// To approve the enrolled state for a key.
    EnrolledApproval(Key),
    /// To write the policy for the transition.
    TransitionPolicy,
    /// To approve the transition for a key.
    TransitionApproval(Key),
    /// Nothing more.
    Finished,
}

/// The steps of the authorization, and what they have found out.
pub struct Authorization {
    pub command: AuthorizeCommand,
    pub stage: AuthorizeStage,
    /// The owner of the enrolled certificates.
    pub owner: Guid,
    /// What `PK` is set to.
    pub pk: Vec<u8>,
    /// What `KEK` is set to.
    pub kek: Vec<u8>,
    /// What `db` is set to.
    pub db: Vec<u8>,
    /// The certificate of the db key.
    pub db_certificate: Vec<u8>,
    /// The time of the updates.
    pub timestamp: [u8; 16],
    /// PCR 7 after enrollment.
    pub enrolled: [u8; 32],
    /// PCR 7 before enrollment.
    pub current: [u8; 32],
    /// Until when the state before enrollment stays approved.
    pub deadline: u64,
}

/// What an [`Authorization`] stands for.
#[verifier::ext_equal]
pub struct AuthorizationView {
    pub command: AuthorizeCommandView,
    pub stage: AuthorizeStage,
    pub owner: Seq<u8>,
    pub pk: Seq<u8>,
    pub kek: Seq<u8>,
    pub db: Seq<u8>,
    pub db_certificate: Seq<u8>,
    pub timestamp: Seq<u8>,
    pub enrolled: Seq<u8>,
    pub current: Seq<u8>,
    pub deadline: u64,
}

impl View for Authorization {
    type V = AuthorizationView;

    open spec fn view(&self) -> AuthorizationView {
        AuthorizationView {
            command: self.command@,
            stage: self.stage,
            owner: self.owner@,
            pk: self.pk@,
            kek: self.kek@,
            db: self.db@,
            db_certificate: self.db_certificate@,
            timestamp: self.timestamp@,
            enrolled: self.enrolled@,
            current: self.current@,
            deadline: self.deadline,
        }
    }
}

/// The subject of the certificate of a key.
pub open spec fn certificate_subject(key: Key) -> Seq<char> {
    match key {
        Key::Kek => "/CN=Key Exchange Key (TPM)/"@,
        Key::Db => "/CN=Database Key (TPM)/"@,
    }
}

/// How the certificate of a key is issued.
pub open spec fn issue(
    dir: Seq<u8>,
    key: Key,
    pk: Seq<char>,
    pk_certificate: Seq<u8>,
) -> CommandView {
    command_line(
        "openssl"@,
        seq![
            word("x509"@),
            word("-new"@),
            word("-days"@),
            word("36500"@),
            word("-subj"@),
            word(certificate_subject(key)),
            word("-force_pubkey"@),
            file_in(dir, key_name(key), ".pub"@),
            word("-CA"@),
            pk_certificate,
            word("-CAkey"@),
            word(pk),
            word("-out"@),
            file_in(dir, key_name(key), ".crt"@),
        ],
    )
}

/// The command that issues the certificate of a TPM key, from its public half: nothing here uses
/// the TPM key itself, which cannot sign before an approval exists.
pub fn issue_command(dir: &[u8], key: Key, pk: &str, pk_certificate: &[u8]) -> (command: Command)
    ensures
        command@ == issue(dir@, key, pk@, pk_certificate@),
{
    let subject = match key {
        Key::Kek => "/CN=Key Exchange Key (TPM)/",
        Key::Db => "/CN=Database Key (TPM)/",
    };
    let mut command = Command::new("openssl");
    command.push_text("x509");
    command.push_text("-new");
    command.push_text("-days");
    command.push_text("36500");
    command.push_text("-subj");
    command.push_text(subject);
    command.push_text("-force_pubkey");
    command.push(file_path(dir, key.name(), ".pub").as_slice());
    command.push_text("-CA");
    command.push(pk_certificate);
    command.push_text("-CAkey");
    command.push_text(pk);
    command.push_text("-out");
    command.push(file_path(dir, key.name(), ".crt").as_slice());
    assert(command@ =~= issue(dir@, key, pk@, pk_certificate@));
    command
}

/// The DER certificate in a PEM text.
pub open spec fn certificate_in(text: Seq<char>) -> Result<Seq<u8>, ProvisionError> {
    match pem_contents(encode_utf8(text), "CERTIFICATE"@) {
        Ok(der) => Ok(der),
        Err(error) => Err(ProvisionError::Certificate(error)),
    }
}

/// The DER certificate in a PEM text.
pub fn certificate_der(text: &str) -> (result: Result<Vec<u8>, ProvisionError>)
    ensures
        match result {
            Ok(der) => certificate_in(text@) == Ok::<Seq<u8>, ProvisionError>(der@),
            Err(error) => certificate_in(text@) == Err::<Seq<u8>, ProvisionError>(error),
        },
{
    match pem_decode(text, "CERTIFICATE") {
        Ok(der) => Ok(der),
        Err(error) => Err(ProvisionError::Certificate(error)),
    }
}

/// The contents of a variable that holds a single certificate.
pub open spec fn enrollment(owner: Seq<u8>, certificate: Seq<u8>) -> Result<
    Seq<u8>,
    ProvisionError,
> {
    match ListView::x509(owner, certificate).bytes() {
        Ok(bytes) => Ok(bytes),
        Err(error) => Err(ProvisionError::List(error)),
    }
}

/// The contents of a variable that holds a single certificate.
fn enroll(owner: Guid, certificate: Vec<u8>) -> (result: Result<Vec<u8>, ProvisionError>)
    ensures
        match result {
            Ok(bytes) => enrollment(owner@, certificate@) == Ok::<Seq<u8>, ProvisionError>(bytes@),
            Err(error) => enrollment(owner@, certificate@) == Err::<Seq<u8>, ProvisionError>(error),
        },
{
    match SignatureList::x509(owner, certificate).to_bytes() {
        Ok(bytes) => Ok(bytes),
        Err(error) => Err(ProvisionError::List(error)),
    }
}

/// The TPM clock, in milliseconds, some minutes later.
pub open spec fn later(clock: u64, minutes: u64) -> Result<u64, ProvisionError> {
    if clock + minutes * 60_000 <= u64::MAX {
        Ok((clock + minutes * 60_000) as u64)
    } else {
        Err(ProvisionError::DeadlineOverflow)
    }
}

/// The TPM clock, in milliseconds, some minutes later.
pub fn deadline(clock: u64, minutes: u64) -> (result: Result<u64, ProvisionError>)
    ensures
        result == later(clock, minutes),
{
    let sum: u128 = clock as u128 + minutes as u128 * 60_000;
    if sum <= u64::MAX as u128 {
        Ok(sum as u64)
    } else {
        Err(ProvisionError::DeadlineOverflow)
    }
}

/// The PCR 7 that the machine will have when `pk`, `kek` and `db` are enrolled, with its `dbx`.
pub open spec fn prediction(state: StateView, certificate: Seq<u8>) -> Result<
    Seq<u8>,
    ProvisionError,
> {
    if !state.fits() {
        Err(ProvisionError::TooLarge)
    } else {
        match authority_in(state.db, certificate) {
            Ok(entry) => Ok(replayed(reset_value(), boot_events(state, entry))),
            Err(error) => Err(ProvisionError::Predict(error)),
        }
    }
}

/// The policy that a PCR 7 value is approved by, until a limit of the TPM clock or for good.
pub open spec fn pcr7_policy(value: Seq<u8>, until: Option<u64>) -> Seq<Seq<u8>> {
    match until {
        Some(clock) => seq![pcr_policy(seq![(7u8, value)]), policy_counter_timer(clock)],
        None => seq![pcr_policy(seq![(7u8, value)])],
    }
}

/// The policy file that a PCR 7 value is approved by, until a limit of the TPM clock or for good.
pub fn pcr7_policy_file(value: &[u8; 32], until: Option<u64>) -> (contents: Vec<u8>)
    ensures
        contents@ == encode_utf8(policy_text(pcr7_policy(value@, until))),
{
    let pcrs: [(u8, [u8; 32]); 1] = [(7, *value)];
    assert(pcr_views(pcrs@) =~= seq![(7u8, value@)]);
    let policy = Policy::default().pcrs(pcrs.as_slice());
    let policy = match until {
        Some(clock) => policy.until_clock(clock),
        None => policy,
    };
    assert(policy@ =~= pcr7_policy(value@, until));
    let text = policy.to_file_contents();
    to_vec(text.as_str().as_bytes())
}

impl AuthorizationView {
    /// The same at another stage.
    pub open spec fn at(self, stage: AuthorizeStage) -> AuthorizationView {
        AuthorizationView { stage, ..self }
    }

    /// To issue the certificate of a key.
    pub open spec fn issue(self, key: Key) -> (AuthorizationView, ActionView) {
        (
            self.at(AuthorizeStage::Certificate(key)),
            ActionView::Run {
                command: issue(
                    self.command.dir,
                    key,
                    self.command.pk,
                    self.command.pk_certificate,
                ),
            },
        )
    }

    /// To read the certificate of a key.
    pub open spec fn read_certificate(self, key: Key) -> (AuthorizationView, ActionView) {
        (
            self.at(AuthorizeStage::KeyCertificate(key)),
            ActionView::ReadText { path: file_in(self.command.dir, key_name(key), ".crt"@) },
        )
    }

    /// What a variable is set to.
    pub open spec fn data(self, variable: SecureBootVariable) -> Seq<u8> {
        match variable {
            SecureBootVariable::Pk => self.pk,
            SecureBootVariable::Kek => self.kek,
            _ => self.db,
        }
    }

    /// To sign the update of a variable. All are signed by the PK.
    pub open spec fn sign(self, variable: SecureBootVariable) -> (AuthorizationView, ActionView) {
        (
            self.at(AuthorizeStage::Signature(variable)),
            ActionView::Sign {
                variable,
                payload: payload(variable, self.timestamp, self.data(variable)),
                key: self.command.pk,
                certificate: self.command.pk_certificate,
            },
        )
    }

    /// To write a policy.
    pub open spec fn write_policy(
        self,
        stage: AuthorizeStage,
        name: Seq<char>,
        policy: Seq<Seq<u8>>,
    ) -> (AuthorizationView, ActionView) {
        (
            self.at(stage),
            ActionView::Write {
                path: file_in(self.command.dir, "policy."@, name),
                contents: encode_utf8(policy_text(policy)),
            },
        )
    }

    /// To approve a policy for a key.
    pub open spec fn approve(self, stage: AuthorizeStage, name: Seq<char>, key: Key) -> (
        AuthorizationView,
        ActionView,
    ) {
        (
            self.at(stage),
            ActionView::Run {
                command: approval(
                    file_in(self.command.dir, key_name(key), ".key"@),
                    name,
                    file_in(self.command.dir, "policy."@, name),
                    self.command.pk,
                ),
            },
        )
    }

    /// The state that is enrolled.
    pub open spec fn enrolled_state(self, dbx: Seq<u8>) -> StateView {
        StateView { pk: self.pk, kek: self.kek, db: self.db, dbx }
    }
}

/// What follows when the caller has answered.
pub open spec fn authorize_next(state: AuthorizationView, reply: ReplyView) -> Result<
    (AuthorizationView, ActionView),
    ProvisionError,
> {
    match (state.stage, reply) {
        (AuthorizeStage::Start, ReplyView::Done) => match state.command.owner {
            Some(owner) => Ok((AuthorizationView { owner, ..state }).issue(Key::Kek)),
            None => Ok((state.at(AuthorizeStage::Owner), ActionView::Random)),
        },
        (AuthorizeStage::Owner, ReplyView::Random(bytes)) => Ok(
            (AuthorizationView { owner: random_guid(bytes), ..state }).issue(Key::Kek),
        ),
        (AuthorizeStage::Certificate(Key::Kek), ReplyView::Done) => Ok(state.issue(Key::Db)),
        (AuthorizeStage::Certificate(Key::Db), ReplyView::Done) => Ok(
            (
                state.at(AuthorizeStage::PkCertificate),
                ActionView::ReadText { path: state.command.pk_certificate },
            ),
        ),
        (AuthorizeStage::PkCertificate, ReplyView::Text(text)) => match certificate_in(text) {
            Err(error) => Err(error),
            Ok(certificate) => match enrollment(state.owner, certificate) {
                Err(error) => Err(error),
                Ok(pk) => Ok((AuthorizationView { pk, ..state }).read_certificate(Key::Kek)),
            },
        },
        (AuthorizeStage::KeyCertificate(Key::Kek), ReplyView::Text(text)) => match certificate_in(
            text,
        ) {
            Err(error) => Err(error),
            Ok(certificate) => match enrollment(state.owner, certificate) {
                Err(error) => Err(error),
                Ok(kek) => Ok((AuthorizationView { kek, ..state }).read_certificate(Key::Db)),
            },
        },
        (AuthorizeStage::KeyCertificate(Key::Db), ReplyView::Text(text)) => match certificate_in(
            text,
        ) {
            Err(error) => Err(error),
            Ok(certificate) => match enrollment(state.owner, certificate) {
                Err(error) => Err(error),
                Ok(db) => Ok(
                    (
                        (AuthorizationView { db, db_certificate: certificate, ..state }).at(
                            AuthorizeStage::Timestamp,
                        ),
                        ActionView::Timestamp,
                    ),
                ),
            },
        },
        (AuthorizeStage::Timestamp, ReplyView::Timestamp(timestamp)) => Ok(
            (AuthorizationView { timestamp, ..state }).sign(SecureBootVariable::Pk),
        ),
        (AuthorizeStage::Signature(variable), ReplyView::Bytes(content_info)) => match signed_update(
            state.timestamp,
            content_info,
            state.data(variable),
        ) {
            Err(error) => Err(ProvisionError::Auth(error)),
            Ok(update) => Ok(
                (
                    state.at(AuthorizeStage::Update(variable)),
                    ActionView::Write {
                        path: file_in(state.command.dir, variable_name(variable), ".auth"@),
                        contents: update,
                    },
                ),
            ),
        },
        (AuthorizeStage::Update(SecureBootVariable::Pk), ReplyView::Done) => Ok(
            state.sign(SecureBootVariable::Kek),
        ),
        (AuthorizeStage::Update(SecureBootVariable::Kek), ReplyView::Done) => Ok(
            state.sign(SecureBootVariable::Db),
        ),
        (AuthorizeStage::Update(SecureBootVariable::Db), ReplyView::Done) => Ok(
            (
                state.at(AuthorizeStage::Dbx),
                ActionView::Read { path: file_in(state.command.dir, "dbx"@, ".esl"@) },
            ),
        ),
        (AuthorizeStage::Dbx, ReplyView::Bytes(dbx)) => match prediction(
            state.enrolled_state(dbx),
            state.db_certificate,
        ) {
            Err(error) => Err(error),
            Ok(enrolled) => Ok(
                (
                    (AuthorizationView { enrolled, ..state }).at(AuthorizeStage::Prediction),
                    ActionView::Write {
                        path: file_in(state.command.dir, "pcr7"@, ".enrolled"@),
                        contents: encode_utf8(hex_text(enrolled)),
                    },
                ),
            ),
        },
        (AuthorizeStage::Prediction, ReplyView::Done) => Ok(
            (
                state.at(AuthorizeStage::Current),
                ActionView::ReadText { path: file_in(state.command.dir, "pcr7"@, ".current"@) },
            ),
        ),
        (AuthorizeStage::Current, ReplyView::Text(text)) => match pcr_of_text(trimmed(text)) {
            Err(error) => Err(ProvisionError::Output(error)),
            Ok(current) => Ok(
                (
                    (AuthorizationView { current, ..state }).at(AuthorizeStage::Clock),
                    ActionView::ReadText { path: file_in(state.command.dir, "clock"@, ".current"@) },
                ),
            ),
        },
        (AuthorizeStage::Clock, ReplyView::Text(text)) => match clock_of_text(trimmed(text)) {
            Err(error) => Err(ProvisionError::Output(error)),
            Ok(clock) => match later(clock, state.command.transition_minutes) {
                Err(error) => Err(error),
                Ok(deadline) => Ok(
                    (AuthorizationView { deadline, ..state }).write_policy(
                        AuthorizeStage::EnrolledPolicy,
                        "enrolled"@,
                        pcr7_policy(state.enrolled, None),
                    ),
                ),
            },
        },
        (AuthorizeStage::EnrolledPolicy, ReplyView::Done) => Ok(
            state.approve(AuthorizeStage::EnrolledApproval(Key::Kek), "enrolled"@, Key::Kek),
        ),
        (AuthorizeStage::EnrolledApproval(Key::Kek), ReplyView::Done) => Ok(
            state.approve(AuthorizeStage::EnrolledApproval(Key::Db), "enrolled"@, Key::Db),
        ),
        (AuthorizeStage::EnrolledApproval(Key::Db), ReplyView::Done) => Ok(
            state.write_policy(
                AuthorizeStage::TransitionPolicy,
                "transition"@,
                pcr7_policy(state.current, Some(state.deadline)),
            ),
        ),
        (AuthorizeStage::TransitionPolicy, ReplyView::Done) => Ok(
            state.approve(AuthorizeStage::TransitionApproval(Key::Kek), "transition"@, Key::Kek),
        ),
        (AuthorizeStage::TransitionApproval(Key::Kek), ReplyView::Done) => Ok(
            state.approve(AuthorizeStage::TransitionApproval(Key::Db), "transition"@, Key::Db),
        ),
        (AuthorizeStage::TransitionApproval(Key::Db), ReplyView::Done) => Ok(
            (state.at(AuthorizeStage::Finished), ActionView::Finish),
        ),
        _ => Err(ProvisionError::UnexpectedReply),
    }
}

/// The authorization that a command asks for, before the first step.
pub open spec fn authorization_of(command: AuthorizeCommandView) -> AuthorizationView {
    AuthorizationView {
        command,
        stage: AuthorizeStage::Start,
        owner: Seq::new(16, |i: int| 0u8),
        pk: Seq::empty(),
        kek: Seq::empty(),
        db: Seq::empty(),
        db_certificate: Seq::empty(),
        timestamp: Seq::new(16, |i: int| 0u8),
        enrolled: Seq::new(32, |i: int| 0u8),
        current: Seq::new(32, |i: int| 0u8),
        deadline: 0,
    }
}

impl AuthorizeCommand {
    /// The steps of the authorization, before the first.
    pub fn start(self) -> (authorization: Authorization)
        ensures
            authorization@ == authorization_of(self@),
    {
        let authorization = Authorization {
            command: self,
            stage: AuthorizeStage::Start,
            owner: Guid([0;16]),
            pk: Vec::new(),
            kek: Vec::new(),
            db: Vec::new(),
            db_certificate: Vec::new(),
            timestamp: [0;16],
            enrolled: [0;32],
            current: [0;32],
            deadline: 0,
        };
        assert(authorization@ =~= authorization_of(self@));
        authorization
    }
}

impl Authorization {
    /// What to do next, given the answer to what was asked last ([`Reply::Done`] at the start).
    #[verifier::rlimit(40)]
    pub fn next(&mut self, reply: Reply) -> (result: Result<Action, ProvisionError>)
        ensures
            match result {
                Ok(action) => authorize_next(old(self)@, reply@) == Ok::<
                    (AuthorizationView, ActionView),
                    ProvisionError,
                >((final(self)@, action@)),
                Err(error) => authorize_next(old(self)@, reply@) == Err::<
                    (AuthorizationView, ActionView),
                    ProvisionError,
                >(error) && final(self)@ == old(self)@,
            },
    {
        match (self.stage, reply) {
            (AuthorizeStage::Start, Reply::Done) => match self.command.owner {
                Some(owner) => {
                    self.owner = owner;
                    Ok(self.ask_to_issue(Key::Kek))
                },
                None => {
                    self.stage = AuthorizeStage::Owner;
                    Ok(Action::Random)
                },
            },
            (AuthorizeStage::Owner, Reply::Random(bytes)) => {
                self.owner = Guid::random(bytes);
                Ok(self.ask_to_issue(Key::Kek))
            },
            (AuthorizeStage::Certificate(Key::Kek), Reply::Done) => Ok(self.ask_to_issue(Key::Db)),
            (AuthorizeStage::Certificate(Key::Db), Reply::Done) => {
                self.stage = AuthorizeStage::PkCertificate;
                Ok(Action::ReadText { path: to_vec(self.command.pk_certificate.as_slice()) })
            },
            (AuthorizeStage::PkCertificate, Reply::Text(text)) => match self.enroll_text(&text) {
                Err(error) => Err(error),
                Ok((pk, _)) => {
                    self.pk = pk;
                    Ok(self.ask_for_certificate(Key::Kek))
                },
            },
            (AuthorizeStage::KeyCertificate(Key::Kek), Reply::Text(text)) => match self.enroll_text(
                &text,
            ) {
                Err(error) => Err(error),
                Ok((kek, _)) => {
                    self.kek = kek;
                    Ok(self.ask_for_certificate(Key::Db))
                },
            },
            (AuthorizeStage::KeyCertificate(Key::Db), Reply::Text(text)) => match self.enroll_text(
                &text,
            ) {
                Err(error) => Err(error),
                Ok((db, db_certificate)) => {
                    self.db = db;
                    self.db_certificate = db_certificate;
                    self.stage = AuthorizeStage::Timestamp;
                    Ok(Action::Timestamp)
                },
            },
            // All three updates are signed by the PK: firmware accepts them in setup mode, and they
            // can re-enroll the same state after a firmware reset.
            (AuthorizeStage::Timestamp, Reply::Timestamp(timestamp)) => {
                self.timestamp = timestamp;
                Ok(self.ask_to_sign(SecureBootVariable::Pk))
            },
            (AuthorizeStage::Signature(variable), Reply::Bytes(content_info)) => {
                let update = update_of_signature(
                    &self.timestamp,
                    content_info.as_slice(),
                    self.data_for(variable),
                );
                match update {
                    Err(error) => Err(ProvisionError::Auth(error)),
                    Ok(contents) => {
                        self.stage = AuthorizeStage::Update(variable);
                        Ok(
                            Action::Write {
                                path: file_path(
                                    self.command.dir.as_slice(),
                                    variable.name(),
                                    ".auth",
                                ),
                                contents,
                            },
                        )
                    },
                }
            },
            (AuthorizeStage::Update(SecureBootVariable::Pk), Reply::Done) => Ok(
                self.ask_to_sign(SecureBootVariable::Kek),
            ),
            (AuthorizeStage::Update(SecureBootVariable::Kek), Reply::Done) => Ok(
                self.ask_to_sign(SecureBootVariable::Db),
            ),
            (AuthorizeStage::Update(SecureBootVariable::Db), Reply::Done) => {
                self.stage = AuthorizeStage::Dbx;
                Ok(Action::Read { path: file_path(self.command.dir.as_slice(), "dbx", ".esl") })
            },
            (AuthorizeStage::Dbx, Reply::Bytes(dbx)) => match self.predict_enrolled(&dbx) {
                Err(error) => Err(error),
                Ok(enrolled) => {
                    let record = hex(enrolled.as_slice());
                    self.enrolled = enrolled;
                    self.stage = AuthorizeStage::Prediction;
                    Ok(
                        Action::Write {
                            path: file_path(self.command.dir.as_slice(), "pcr7", ".enrolled"),
                            contents: to_vec(record.as_str().as_bytes()),
                        },
                    )
                },
            },
            (AuthorizeStage::Prediction, Reply::Done) => {
                self.stage = AuthorizeStage::Current;
                Ok(
                    Action::ReadText {
                        path: file_path(self.command.dir.as_slice(), "pcr7", ".current"),
                    },
                )
            },
            (AuthorizeStage::Current, Reply::Text(text)) => {
                let record = trim(text.as_str());
                match parse_pcr(record.as_str()) {
                    Err(error) => Err(ProvisionError::Output(error)),
                    Ok(current) => {
                        self.current = current;
                        self.stage = AuthorizeStage::Clock;
                        Ok(
                            Action::ReadText {
                                path: file_path(self.command.dir.as_slice(), "clock", ".current"),
                            },
                        )
                    },
                }
            },
            (AuthorizeStage::Clock, Reply::Text(text)) => {
                let record = trim(text.as_str());
                match parse_clock(record.as_str()) {
                    Err(error) => Err(ProvisionError::Output(error)),
                    Ok(clock) => match deadline(clock, self.command.transition_minutes) {
                        Err(error) => Err(error),
                        Ok(deadline) => {
                            self.deadline = deadline;
                            let contents = pcr7_policy_file(&self.enrolled, None);
                            Ok(
                                self.ask_to_write_policy(
                                    AuthorizeStage::EnrolledPolicy,
                                    "enrolled",
                                    contents,
                                ),
                            )
                        },
                    },
                }
            },
            (AuthorizeStage::EnrolledPolicy, Reply::Done) => Ok(
                self.ask_to_approve(
                    AuthorizeStage::EnrolledApproval(Key::Kek),
                    "enrolled",
                    Key::Kek,
                ),
            ),
            (AuthorizeStage::EnrolledApproval(Key::Kek), Reply::Done) => Ok(
                self.ask_to_approve(AuthorizeStage::EnrolledApproval(Key::Db), "enrolled", Key::Db),
            ),
            (AuthorizeStage::EnrolledApproval(Key::Db), Reply::Done) => {
                let contents = pcr7_policy_file(&self.current, Some(self.deadline));
                Ok(
                    self.ask_to_write_policy(
                        AuthorizeStage::TransitionPolicy,
                        "transition",
                        contents,
                    ),
                )
            },
            (AuthorizeStage::TransitionPolicy, Reply::Done) => Ok(
                self.ask_to_approve(
                    AuthorizeStage::TransitionApproval(Key::Kek),
                    "transition",
                    Key::Kek,
                ),
            ),
            (AuthorizeStage::TransitionApproval(Key::Kek), Reply::Done) => Ok(
                self.ask_to_approve(
                    AuthorizeStage::TransitionApproval(Key::Db),
                    "transition",
                    Key::Db,
                ),
            ),
            (AuthorizeStage::TransitionApproval(Key::Db), Reply::Done) => {
                self.stage = AuthorizeStage::Finished;
                Ok(Action::Finish)
            },
            _ => Err(ProvisionError::UnexpectedReply),
        }
    }

    /// What a variable is set to.
    fn data_for(&self, variable: SecureBootVariable) -> (data: &[u8])
        ensures
            data@ == self@.data(variable),
    {
        match variable {
            SecureBootVariable::Pk => self.pk.as_slice(),
            SecureBootVariable::Kek => self.kek.as_slice(),
            _ => self.db.as_slice(),
        }
    }

    /// The contents of a variable with the certificate in a PEM text, and the certificate.
    fn enroll_text(&self, text: &String) -> (result: Result<(Vec<u8>, Vec<u8>), ProvisionError>)
        ensures
            match result {
                Ok((bytes, certificate)) => certificate_in(text@) == Ok::<
                    Seq<u8>,
                    ProvisionError,
                >(certificate@) && enrollment(self@.owner, certificate@) == Ok::<
                    Seq<u8>,
                    ProvisionError,
                >(bytes@),
                Err(error) => match certificate_in(text@) {
                    Ok(certificate) => enrollment(self@.owner, certificate) == Err::<
                        Seq<u8>,
                        ProvisionError,
                    >(error),
                    Err(other) => other == error,
                },
            },
    {
        match certificate_der(text.as_str()) {
            Err(error) => Err(error),
            Ok(certificate) => {
                let copy = to_vec(certificate.as_slice());
                match enroll(self.owner, copy) {
                    Err(error) => Err(error),
                    Ok(bytes) => Ok((bytes, certificate)),
                }
            },
        }
    }

    /// PCR 7 after enrollment.
    fn predict_enrolled(&self, dbx: &Vec<u8>) -> (result: Result<[u8; 32], ProvisionError>)
        ensures
            match result {
                Ok(value) => prediction(self@.enrolled_state(dbx@), self@.db_certificate) == Ok::<
                    Seq<u8>,
                    ProvisionError,
                >(value@),
                Err(error) => prediction(self@.enrolled_state(dbx@), self@.db_certificate)
                    == Err::<Seq<u8>, ProvisionError>(error),
            },
    {
        let state = SecureBootState {
            pk: self.pk.as_slice(),
            kek: self.kek.as_slice(),
            db: self.db.as_slice(),
            dbx: dbx.as_slice(),
        };
        if !state.fits() {
            return Err(ProvisionError::TooLarge);
        }
        match predict(&state, self.db_certificate.as_slice()) {
            Ok(value) => Ok(value),
            Err(error) => Err(ProvisionError::Predict(error)),
        }
    }

    fn ask_to_issue(&mut self, key: Key) -> (action: Action)
        ensures
            (final(self)@, action@) == old(self)@.issue(key),
    {
        self.stage = AuthorizeStage::Certificate(key);
        let command = issue_command(
            self.command.dir.as_slice(),
            key,
            self.command.pk.as_str(),
            self.command.pk_certificate.as_slice(),
        );
        Action::Run { command }
    }

    fn ask_for_certificate(&mut self, key: Key) -> (action: Action)
        ensures
            (final(self)@, action@) == old(self)@.read_certificate(key),
    {
        self.stage = AuthorizeStage::KeyCertificate(key);
        Action::ReadText { path: file_path(self.command.dir.as_slice(), key.name(), ".crt") }
    }

    fn ask_to_sign(&mut self, variable: SecureBootVariable) -> (action: Action)
        ensures
            (final(self)@, action@) == old(self)@.sign(variable),
    {
        let payload = signed_payload(variable, &self.timestamp, self.data_for(variable));
        self.stage = AuthorizeStage::Signature(variable);
        Action::Sign {
            variable,
            payload,
            key: self.command.pk.clone(),
            certificate: to_vec(self.command.pk_certificate.as_slice()),
        }
    }

    fn ask_to_write_policy(
        &mut self,
        stage: AuthorizeStage,
        name: &str,
        contents: Vec<u8>,
    ) -> (action: Action)
        ensures
            final(self)@ == old(self)@.at(stage),
            action@ == (ActionView::Write {
                path: file_in(old(self)@.command.dir, "policy."@, name@),
                contents: contents@,
            }),
    {
        self.stage = stage;
        Action::Write { path: file_path(self.command.dir.as_slice(), "policy.", name), contents }
    }

    fn ask_to_approve(&mut self, stage: AuthorizeStage, name: &str, key: Key) -> (action: Action)
        ensures
            (final(self)@, action@) == old(self)@.approve(stage, name@, key),
    {
        self.stage = stage;
        let dir: &[u8] = self.command.dir.as_slice();
        let key_file = file_path(dir, key.name(), ".key");
        let policy = file_path(dir, "policy.", name);
        let command = approve_command(
            key_file.as_slice(),
            name,
            policy.as_slice(),
            self.command.pk.as_str(),
        );
        Action::Run { command }
    }
}

/// How far the authorization has come.
pub open spec fn authorize_progress(stage: AuthorizeStage) -> int {
    match stage {
        AuthorizeStage::Start => 0,
        AuthorizeStage::Owner => 1,
        AuthorizeStage::Certificate(Key::Kek) => 2,
        AuthorizeStage::Certificate(Key::Db) => 3,
        AuthorizeStage::PkCertificate => 4,
        AuthorizeStage::KeyCertificate(Key::Kek) => 5,
        AuthorizeStage::KeyCertificate(Key::Db) => 6,
        AuthorizeStage::Timestamp => 7,
        AuthorizeStage::Signature(SecureBootVariable::Pk) => 8,
        AuthorizeStage::Update(SecureBootVariable::Pk) => 9,
        AuthorizeStage::Signature(SecureBootVariable::Kek) => 10,
        AuthorizeStage::Update(SecureBootVariable::Kek) => 11,
        AuthorizeStage::Signature(SecureBootVariable::Db) => 12,
        AuthorizeStage::Update(SecureBootVariable::Db) => 13,
        AuthorizeStage::Signature(SecureBootVariable::Dbx) => 12,
        AuthorizeStage::Update(SecureBootVariable::Dbx) => 13,
        AuthorizeStage::Dbx => 14,
        AuthorizeStage::Prediction => 15,
        AuthorizeStage::Current => 16,
        AuthorizeStage::Clock => 17,
        AuthorizeStage::EnrolledPolicy => 18,
        AuthorizeStage::EnrolledApproval(Key::Kek) => 19,
        AuthorizeStage::EnrolledApproval(Key::Db) => 20,
        AuthorizeStage::TransitionPolicy => 21,
        AuthorizeStage::TransitionApproval(Key::Kek) => 22,
        AuthorizeStage::TransitionApproval(Key::Db) => 23,
        AuthorizeStage::Finished => 24,
    }
}

/// The stage behind a stage, where no step fails.
pub open spec fn following(stage: AuthorizeStage, has_owner: bool) -> AuthorizeStage {
    match stage {
        AuthorizeStage::Start => if has_owner {
            AuthorizeStage::Certificate(Key::Kek)
        } else {
            AuthorizeStage::Owner
        },
        AuthorizeStage::Owner => AuthorizeStage::Certificate(Key::Kek),
        AuthorizeStage::Certificate(Key::Kek) => AuthorizeStage::Certificate(Key::Db),
        AuthorizeStage::Certificate(Key::Db) => AuthorizeStage::PkCertificate,
        AuthorizeStage::PkCertificate => AuthorizeStage::KeyCertificate(Key::Kek),
        AuthorizeStage::KeyCertificate(Key::Kek) => AuthorizeStage::KeyCertificate(Key::Db),
        AuthorizeStage::KeyCertificate(Key::Db) => AuthorizeStage::Timestamp,
        AuthorizeStage::Timestamp => AuthorizeStage::Signature(SecureBootVariable::Pk),
        AuthorizeStage::Signature(variable) => AuthorizeStage::Update(variable),
        AuthorizeStage::Update(SecureBootVariable::Pk) => AuthorizeStage::Signature(
            SecureBootVariable::Kek,
        ),
        AuthorizeStage::Update(SecureBootVariable::Kek) => AuthorizeStage::Signature(
            SecureBootVariable::Db,
        ),
        AuthorizeStage::Update(_) => AuthorizeStage::Dbx,
        AuthorizeStage::Dbx => AuthorizeStage::Prediction,
        AuthorizeStage::Prediction => AuthorizeStage::Current,
        AuthorizeStage::Current => AuthorizeStage::Clock,
        AuthorizeStage::Clock => AuthorizeStage::EnrolledPolicy,
        AuthorizeStage::EnrolledPolicy => AuthorizeStage::EnrolledApproval(Key::Kek),
        AuthorizeStage::EnrolledApproval(Key::Kek) => AuthorizeStage::EnrolledApproval(Key::Db),
        AuthorizeStage::EnrolledApproval(Key::Db) => AuthorizeStage::TransitionPolicy,
        AuthorizeStage::TransitionPolicy => AuthorizeStage::TransitionApproval(Key::Kek),
        AuthorizeStage::TransitionApproval(Key::Kek) => AuthorizeStage::TransitionApproval(Key::Db),
        AuthorizeStage::TransitionApproval(Key::Db) => AuthorizeStage::Finished,
        AuthorizeStage::Finished => AuthorizeStage::Finished,
    }
}

/// Every step leads to the stage behind.
proof fn lemma_following(state: AuthorizationView, reply: ReplyView)
    requires
        authorize_next(state, reply) is Ok,
    ensures
        state.stage != AuthorizeStage::Finished,
        authorize_next(state, reply)->Ok_0.0.stage == following(
            state.stage,
            state.command.owner is Some,
        ),
{
    match state.stage {
        AuthorizeStage::Start => {},
        AuthorizeStage::Owner => {},
        AuthorizeStage::Certificate(_) => {},
        AuthorizeStage::PkCertificate => {},
        AuthorizeStage::KeyCertificate(_) => {},
        AuthorizeStage::Timestamp => {},
        AuthorizeStage::Signature(_) => {},
        AuthorizeStage::Update(_) => {},
        AuthorizeStage::Dbx => {},
        AuthorizeStage::Prediction => {},
        AuthorizeStage::Current => {},
        AuthorizeStage::Clock => {},
        AuthorizeStage::EnrolledPolicy => {},
        AuthorizeStage::EnrolledApproval(_) => {},
        AuthorizeStage::TransitionPolicy => {},
        AuthorizeStage::TransitionApproval(_) => {},
        AuthorizeStage::Finished => {},
    }
}

proof fn lemma_following_advances(stage: AuthorizeStage, has_owner: bool)
    requires
        is_authorize_stage(stage),
        stage != AuthorizeStage::Finished,
    ensures
        is_authorize_stage(following(stage, has_owner)),
        authorize_progress(stage) < authorize_progress(following(stage, has_owner))
            <= authorize_progress(stage) + 2,
{
}

/// Whether the authorization can come to a stage: `dbx` is not updated.
pub open spec fn is_authorize_stage(stage: AuthorizeStage) -> bool {
    stage != AuthorizeStage::Signature(SecureBootVariable::Dbx) && stage != AuthorizeStage::Update(
        SecureBootVariable::Dbx,
    )
}

/// Every step brings the authorization further, so it ends, and never leads to an update of `dbx`.
/// In particular, nothing is approved before all updates are written.
pub proof fn law_authorize_advances(state: AuthorizationView, reply: ReplyView)
    requires
        is_authorize_stage(state.stage),
        authorize_next(state, reply) is Ok,
    ensures
        is_authorize_stage(authorize_next(state, reply)->Ok_0.0.stage),
        authorize_progress(state.stage) < authorize_progress(
            authorize_next(state, reply)->Ok_0.0.stage,
        ) <= authorize_progress(state.stage) + 2,
{
    lemma_following(state, reply);
    lemma_following_advances(state.stage, state.command.owner is Some);
}

/// Whether a stage waits for such a reply.
pub open spec fn awaits(stage: AuthorizeStage, reply: ReplyView) -> bool {
    match stage {
        AuthorizeStage::Owner => reply is Random,
        AuthorizeStage::PkCertificate
        | AuthorizeStage::KeyCertificate(_)
        | AuthorizeStage::Current
        | AuthorizeStage::Clock => reply is Text,
        AuthorizeStage::Timestamp => reply is Timestamp,
        AuthorizeStage::Signature(_) | AuthorizeStage::Dbx => reply is Bytes,
        AuthorizeStage::Finished => false,
        _ => reply is Done,
    }
}

/// Whether such an action leads to a stage.
spec fn asks(stage: AuthorizeStage, action: ActionView) -> bool {
    match stage {
        AuthorizeStage::Owner => action is Random,
        AuthorizeStage::PkCertificate
        | AuthorizeStage::KeyCertificate(_)
        | AuthorizeStage::Current
        | AuthorizeStage::Clock => action is ReadText,
        AuthorizeStage::Timestamp => action is Timestamp,
        AuthorizeStage::Signature(_) => action is Sign,
        AuthorizeStage::Dbx => action is Read,
        AuthorizeStage::Finished => action is Finish,
        _ => action is Write || action is Run,
    }
}

#[verifier::rlimit(30)]
proof fn lemma_asks(state: AuthorizationView, reply: ReplyView)
    requires
        authorize_next(state, reply) is Ok,
    ensures
        asks(authorize_next(state, reply)->Ok_0.0.stage, authorize_next(state, reply)->Ok_0.1),
{
    match state.stage {
        AuthorizeStage::Start => {},
        AuthorizeStage::Owner => {},
        AuthorizeStage::Certificate(Key::Kek) => {},
        AuthorizeStage::Certificate(Key::Db) => {},
        AuthorizeStage::PkCertificate => {},
        AuthorizeStage::KeyCertificate(Key::Kek) => {},
        AuthorizeStage::KeyCertificate(Key::Db) => {},
        AuthorizeStage::Timestamp => {},
        AuthorizeStage::Signature(_) => {},
        AuthorizeStage::Update(_) => {},
        AuthorizeStage::Dbx => {},
        AuthorizeStage::Prediction => {},
        AuthorizeStage::Current => {},
        AuthorizeStage::Clock => {},
        AuthorizeStage::EnrolledPolicy => {},
        AuthorizeStage::EnrolledApproval(_) => {},
        AuthorizeStage::TransitionPolicy => {},
        AuthorizeStage::TransitionApproval(_) => {},
        AuthorizeStage::Finished => {},
    }
}

/// What is asked is what the stage waits for.
proof fn lemma_awaits_answers(stage: AuthorizeStage, action: ActionView, answer: ReplyView)
    requires
        asks(stage, action),
        answers(answer, action),
    ensures
        awaits(stage, answer),
{
}

proof fn lemma_awaited_is_expected(state: AuthorizationView, reply: ReplyView)
    requires
        is_authorize_stage(state.stage),
        awaits(state.stage, reply),
    ensures
        authorize_next(state, reply) != Err::<(AuthorizationView, ActionView), ProvisionError>(
            ProvisionError::UnexpectedReply,
        ),
{
    match state.stage {
        AuthorizeStage::Start => {},
        AuthorizeStage::Owner => {},
        AuthorizeStage::Certificate(_) => {},
        AuthorizeStage::PkCertificate => {},
        AuthorizeStage::KeyCertificate(_) => {},
        AuthorizeStage::Timestamp => {},
        AuthorizeStage::Signature(_) => {},
        AuthorizeStage::Update(_) => {},
        AuthorizeStage::Dbx => {},
        AuthorizeStage::Prediction => {},
        AuthorizeStage::Current => {},
        AuthorizeStage::Clock => {},
        AuthorizeStage::EnrolledPolicy => {},
        AuthorizeStage::EnrolledApproval(_) => {},
        AuthorizeStage::TransitionPolicy => {},
        AuthorizeStage::TransitionApproval(_) => {},
        AuthorizeStage::Finished => {},
    }
}

/// No answer to what was asked is unexpected, until everything is done.
pub proof fn law_authorize_takes_answers(
    state: AuthorizationView,
    reply: ReplyView,
    answer: ReplyView,
)
    requires
        is_authorize_stage(state.stage),
        authorize_next(state, reply) is Ok,
        answers(answer, authorize_next(state, reply)->Ok_0.1),
    ensures
        authorize_next(authorize_next(state, reply)->Ok_0.0, answer) != Err::<
            (AuthorizationView, ActionView),
            ProvisionError,
        >(ProvisionError::UnexpectedReply),
{
    law_authorize_advances(state, reply);
    lemma_asks(state, reply);
    let (next, action) = authorize_next(state, reply)->Ok_0;
    lemma_awaits_answers(next.stage, action, answer);
    lemma_awaited_is_expected(authorize_next(state, reply)->Ok_0.0, answer);
}

/// What the authorization was told does not change, nor what it has found out: the lists that are
/// signed are the lists that are predicted from, and the values that are approved are the values
/// that were predicted and read.
pub proof fn law_authorize_keeps_findings(state: AuthorizationView, reply: ReplyView)
    requires
        is_authorize_stage(state.stage),
        authorize_next(state, reply) is Ok,
    ensures
        ({
            let next = authorize_next(state, reply)->Ok_0.0;
            let progress = authorize_progress(state.stage);
            &&& next.command == state.command
            &&& progress >= 2 ==> next.owner == state.owner
            &&& progress >= 5 ==> next.pk == state.pk
            &&& progress >= 6 ==> next.kek == state.kek
            &&& progress >= 7 ==> next.db == state.db && next.db_certificate
                == state.db_certificate
            &&& progress >= 8 ==> next.timestamp == state.timestamp
            &&& progress >= 15 ==> next.enrolled == state.enrolled
            &&& progress >= 17 ==> next.current == state.current
            &&& progress >= 18 ==> next.deadline == state.deadline
        }),
{
    match state.stage {
        AuthorizeStage::Start => {},
        AuthorizeStage::Owner => {},
        AuthorizeStage::Certificate(_) => {},
        AuthorizeStage::PkCertificate => {},
        AuthorizeStage::KeyCertificate(_) => {},
        AuthorizeStage::Timestamp => {},
        AuthorizeStage::Signature(_) => {},
        AuthorizeStage::Update(_) => {},
        AuthorizeStage::Dbx => {},
        AuthorizeStage::Prediction => {},
        AuthorizeStage::Current => {},
        AuthorizeStage::Clock => {},
        AuthorizeStage::EnrolledPolicy => {},
        AuthorizeStage::EnrolledApproval(_) => {},
        AuthorizeStage::TransitionPolicy => {},
        AuthorizeStage::TransitionApproval(_) => {},
        AuthorizeStage::Finished => {},
    }
}

/// The state before enrollment is approved until the deadline only, and the state after
/// enrollment for good.
pub proof fn law_only_the_transition_is_limited(state: AuthorizationView, reply: ReplyView)
    requires
        authorize_next(state, reply) is Ok,
    ensures
        ({
            let (next, action) = authorize_next(state, reply)->Ok_0;
            &&& next.stage == AuthorizeStage::TransitionPolicy ==> action == (ActionView::Write {
                path: file_in(state.command.dir, "policy."@, "transition"@),
                contents: encode_utf8(
                    policy_text(
                        seq![
                            pcr_policy(seq![(7u8, state.current)]),
                            policy_counter_timer(state.deadline),
                        ],
                    ),
                ),
            })
            &&& next.stage == AuthorizeStage::EnrolledPolicy ==> action == (ActionView::Write {
                path: file_in(state.command.dir, "policy."@, "enrolled"@),
                contents: encode_utf8(policy_text(seq![pcr_policy(seq![(7u8, state.enrolled)])])),
            })
        }),
{
    match state.stage {
        AuthorizeStage::Start => {},
        AuthorizeStage::Owner => {},
        AuthorizeStage::Certificate(_) => {},
        AuthorizeStage::PkCertificate => {},
        AuthorizeStage::KeyCertificate(_) => {},
        AuthorizeStage::Timestamp => {},
        AuthorizeStage::Signature(_) => {},
        AuthorizeStage::Update(_) => {},
        AuthorizeStage::Dbx => {},
        AuthorizeStage::Prediction => {},
        AuthorizeStage::Current => {},
        AuthorizeStage::Clock => {},
        AuthorizeStage::EnrolledPolicy => {},
        AuthorizeStage::EnrolledApproval(_) => {},
        AuthorizeStage::TransitionPolicy => {},
        AuthorizeStage::TransitionApproval(_) => {},
        AuthorizeStage::Finished => {},
    }
}

/// An update that is written sets its variable to the list that PCR 7 is predicted from.
pub proof fn law_update_carries_its_list(
    state: AuthorizationView,
    variable: SecureBootVariable,
    content_info: Seq<u8>,
)
    requires
        state.stage == AuthorizeStage::Signature(variable),
        state.timestamp.len() == 16,
        authorize_next(state, ReplyView::Bytes(content_info)) is Ok,
    ensures
        ({
            let action = authorize_next(state, ReplyView::Bytes(content_info))->Ok_0.1;
            &&& action is Write
            &&& update_data(action->contents) == Ok::<Seq<u8>, AuthError>(state.data(variable))
        }),
{
    let bytes = signed_data(content_info)->Ok_0;
    law_update_round_trip(state.timestamp, bytes, state.data(variable));
}

/// The machine boots what the db key has signed: PCR 7 can be predicted for the state that is
/// enrolled, and the `db` entry that is measured in it is that of the certificate of the db key.
/// (A certificate is never empty: a list of an empty one cannot be read.)
pub proof fn law_enrolled_state_is_predicted(
    owner: Seq<u8>,
    certificate: Seq<u8>,
    pk: Seq<u8>,
    kek: Seq<u8>,
    dbx: Seq<u8>,
)
    requires
        owner.len() == 16,
        certificate.len() > 0,
        enrollment(owner, certificate) is Ok,
        (StateView { pk, kek, db: enrollment(owner, certificate)->Ok_0, dbx }).fits(),
    ensures
        ({
            let state = StateView { pk, kek, db: enrollment(owner, certificate)->Ok_0, dbx };
            prediction(state, certificate) == Ok::<Seq<u8>, ProvisionError>(
                replayed(
                    reset_value(),
                    boot_events(state, EntryView { owner, data: certificate }),
                ),
            )
        }),
{
    let list = ListView::x509(owner, certificate);
    let lists = seq![list];
    let entry = EntryView { owner, data: certificate };
    lemma_guid_lengths();
    assert(list.entries[0] == entry);
    assert(list.is_readable());
    assert(lists.drop_first() =~= Seq::empty());
    assert(lists_bytes(lists.drop_first()) =~= Seq::empty());
    assert(lists_bytes(lists) =~= list.bytes()->Ok_0);
    law_lists_round_trip(lists);
    assert(x509_entries(lists) =~= seq![entry]) by {
        assert(lists.drop_last() =~= Seq::empty());
        assert(x509_entries(lists.drop_last()) =~= Seq::empty());
    }
}

/// What follows when the caller has answered, as one step of a run.
#[verifier::opaque]
pub open spec fn one_step(state: AuthorizationView, reply: ReplyView) -> Result<
    (AuthorizationView, ActionView),
    ProvisionError,
> {
    authorize_next(state, reply)
}

/// Where the authorization is after replies, and what it has asked on the way.
pub open spec fn authorize_run(state: AuthorizationView, replies: Seq<ReplyView>) -> Result<
    (AuthorizationView, Seq<ActionView>),
    ProvisionError,
>
    decreases replies.len(),
{
    if replies.len() == 0 {
        Ok((state, Seq::empty()))
    } else {
        match authorize_run(state, replies.drop_last()) {
            Err(error) => Err(error),
            Ok((before, actions)) => match one_step(before, replies.last()) {
                Err(error) => Err(error),
                Ok((after, action)) => Ok((after, actions.push(action))),
            },
        }
    }
}

/// Whether a reply leads from a state to another by an action.
spec fn leads(
    state: AuthorizationView,
    reply: ReplyView,
    next: AuthorizationView,
    action: ActionView,
) -> bool {
    one_step(state, reply) == Ok::<(AuthorizationView, ActionView), ProvisionError>((next, action))
}

/// Whether replies lead from a state to another by actions.
#[verifier::opaque]
spec fn runs(
    start: AuthorizationView,
    replies: Seq<ReplyView>,
    state: AuthorizationView,
    actions: Seq<ActionView>,
) -> bool {
    authorize_run(start, replies) == Ok::<(AuthorizationView, Seq<ActionView>), ProvisionError>(
        (state, actions),
    )
}

proof fn lemma_runs_one(
    start: AuthorizationView,
    reply: ReplyView,
    next: AuthorizationView,
    action: ActionView,
)
    requires
        leads(start, reply, next, action),
    ensures
        runs(start, seq![reply], next, seq![action]),
{
    reveal(runs);
    assert(seq![reply].drop_last() =~= Seq::<ReplyView>::empty());
    assert(authorize_run(start, Seq::<ReplyView>::empty()) == Ok::<
        (AuthorizationView, Seq<ActionView>),
        ProvisionError,
    >((start, Seq::empty())));
    assert(Seq::<ActionView>::empty().push(action) =~= seq![action]);
}

/// One reply more.
proof fn lemma_runs_step(
    start: AuthorizationView,
    replies: Seq<ReplyView>,
    actions: Seq<ActionView>,
    state: AuthorizationView,
    reply: ReplyView,
    next: AuthorizationView,
    action: ActionView,
)
    requires
        runs(start, replies, state, actions),
        leads(state, reply, next, action),
    ensures
        runs(start, replies.push(reply), next, actions.push(action)),
{
    reveal(runs);
    assert(replies.push(reply).drop_last() =~= replies);
}

/// One run behind another.
#[verifier::rlimit(40)]
proof fn lemma_runs_both(
    start: AuthorizationView,
    first: Seq<ReplyView>,
    first_actions: Seq<ActionView>,
    middle: AuthorizationView,
    second: Seq<ReplyView>,
    second_actions: Seq<ActionView>,
    end: AuthorizationView,
)
    requires
        runs(start, first, middle, first_actions),
        runs(middle, second, end, second_actions),
    ensures
        runs(start, first + second, end, first_actions + second_actions),
    decreases second.len(),
{
    reveal(runs);
    if second.len() == 0 {
        assert(first + second =~= first);
        assert(first_actions + second_actions =~= first_actions);
    } else {
        let (before, actions) = authorize_run(middle, second.drop_last())->Ok_0;
        lemma_runs_both(start, first, first_actions, middle, second.drop_last(), actions, before);
        assert((first + second).drop_last() =~= first + second.drop_last());
        let last = second_actions.last();
        assert(first_actions + actions.push(last) =~= (first_actions + actions).push(last));
    }
}

/// The list of a single certificate in a PEM text, as it is enrolled.
pub open spec fn enrolled_list(owner: Seq<u8>, pem: Seq<char>) -> Seq<u8> {
    ListView::x509(owner, pem_contents(encode_utf8(pem), "CERTIFICATE"@)->Ok_0).bytes()->Ok_0
}

/// Whether a PEM text has a certificate that can be enrolled.
pub open spec fn can_be_enrolled(owner: Seq<u8>, pem: Seq<char>) -> bool {
    &&& pem_contents(encode_utf8(pem), "CERTIFICATE"@) is Ok
    &&& ListView::x509(owner, pem_contents(encode_utf8(pem), "CERTIFICATE"@)->Ok_0).bytes() is Ok
}

/// What is asked for the certificates: to issue the second (the first is asked for already), to
/// read all three, and to give the time.
pub open spec fn certificate_actions(command: AuthorizeCommandView) -> Seq<ActionView> {
    seq![
        ActionView::Run {
            command: issue(command.dir, Key::Db, command.pk, command.pk_certificate),
        },
        ActionView::ReadText { path: command.pk_certificate },
        ActionView::ReadText { path: joined(command.dir, encode_utf8("KEK.crt"@)) },
        ActionView::ReadText { path: joined(command.dir, encode_utf8("db.crt"@)) },
        ActionView::Timestamp,
    ]
}

/// The replies of which the certificates are made.
pub open spec fn certificate_replies(
    pk_pem: Seq<char>,
    kek_pem: Seq<char>,
    db_pem: Seq<char>,
) -> Seq<ReplyView> {
    seq![
        ReplyView::Done,
        ReplyView::Done,
        ReplyView::Text(pk_pem),
        ReplyView::Text(kek_pem),
        ReplyView::Text(db_pem),
    ]
}

/// The state when the certificates are read.
spec fn with_certificates(
    state: AuthorizationView,
    pk_pem: Seq<char>,
    kek_pem: Seq<char>,
    db_pem: Seq<char>,
) -> AuthorizationView {
    AuthorizationView {
        stage: AuthorizeStage::Timestamp,
        pk: enrolled_list(state.owner, pk_pem),
        kek: enrolled_list(state.owner, kek_pem),
        db: enrolled_list(state.owner, db_pem),
        db_certificate: pem_contents(encode_utf8(db_pem), "CERTIFICATE"@)->Ok_0,
        ..state
    }
}

proof fn lemma_certificate_step(state: AuthorizationView, pem: Seq<char>)
    requires
        can_be_enrolled(state.owner, pem),
    ensures
        ({
            let list = enrolled_list(state.owner, pem);
            let reply = ReplyView::Text(pem);
            &&& state.stage == AuthorizeStage::PkCertificate ==> leads(
                state,
                reply,
                AuthorizationView {
                    pk: list,
                    stage: AuthorizeStage::KeyCertificate(Key::Kek),
                    ..state
                },
                ActionView::ReadText { path: joined(state.command.dir, encode_utf8("KEK.crt"@)) },
            )
            &&& state.stage == AuthorizeStage::KeyCertificate(Key::Kek) ==> leads(
                state,
                reply,
                AuthorizationView {
                    kek: list,
                    stage: AuthorizeStage::KeyCertificate(Key::Db),
                    ..state
                },
                ActionView::ReadText { path: joined(state.command.dir, encode_utf8("db.crt"@)) },
            )
            &&& state.stage == AuthorizeStage::KeyCertificate(Key::Db) ==> leads(
                state,
                reply,
                AuthorizationView {
                    db: list,
                    db_certificate: pem_contents(encode_utf8(pem), "CERTIFICATE"@)->Ok_0,
                    stage: AuthorizeStage::Timestamp,
                    ..state
                },
                ActionView::Timestamp,
            )
        }),
{
    reveal(one_step);
    law_key_files(state.command.dir);
}

#[verifier::rlimit(40)]
proof fn lemma_certificate_run(
    state: AuthorizationView,
    pk_pem: Seq<char>,
    kek_pem: Seq<char>,
    db_pem: Seq<char>,
)
    requires
        state.stage == AuthorizeStage::Certificate(Key::Kek),
        can_be_enrolled(state.owner, pk_pem),
        can_be_enrolled(state.owner, kek_pem),
        can_be_enrolled(state.owner, db_pem),
    ensures
        runs(
            state,
            certificate_replies(pk_pem, kek_pem, db_pem),
            with_certificates(state, pk_pem, kek_pem, db_pem),
            certificate_actions(state.command),
        ),
{
    let r = certificate_replies(pk_pem, kek_pem, db_pem);
    let a = certificate_actions(state.command);
    let s1 = AuthorizationView { stage: AuthorizeStage::Certificate(Key::Db), ..state };
    let s2 = AuthorizationView { stage: AuthorizeStage::PkCertificate, ..state };
    assert(leads(state, r[0], s1, a[0]) && leads(s1, r[1], s2, a[1])) by {
        reveal(one_step);
    }
    lemma_certificate_step(s2, pk_pem);
    let s3 = AuthorizationView {
        pk: enrolled_list(state.owner, pk_pem),
        stage: AuthorizeStage::KeyCertificate(Key::Kek),
        ..state
    };
    lemma_certificate_step(s3, kek_pem);
    let s4 = AuthorizationView {
        kek: enrolled_list(state.owner, kek_pem),
        stage: AuthorizeStage::KeyCertificate(Key::Db),
        ..s3
    };
    lemma_certificate_step(s4, db_pem);
    let s5 = with_certificates(state, pk_pem, kek_pem, db_pem);
    lemma_runs_one(state, r[0], s1, a[0]);
    let r1 = seq![r[0]];
    let a1 = seq![a[0]];
    lemma_runs_step(state, r1, a1, s1, r[1], s2, a[1]);
    lemma_runs_step(state, r1.push(r[1]), a1.push(a[1]), s2, r[2], s3, a[2]);
    let r3 = r1.push(r[1]).push(r[2]);
    let a3 = a1.push(a[1]).push(a[2]);
    lemma_runs_step(state, r3, a3, s3, r[3], s4, a[3]);
    lemma_runs_step(state, r3.push(r[3]), a3.push(a[3]), s4, r[4], s5, a[4]);
    assert(r3.push(r[3]).push(r[4]) =~= r);
    assert(a3.push(a[3]).push(a[4]) =~= a);
}

/// What is asked to sign the update of a variable with the PK.
pub open spec fn sign_action(
    command: AuthorizeCommandView,
    variable: SecureBootVariable,
    timestamp: Seq<u8>,
    list: Seq<u8>,
) -> ActionView {
    ActionView::Sign {
        variable,
        payload: payload(variable, timestamp, list),
        key: command.pk,
        certificate: command.pk_certificate,
    }
}

/// What is asked for the updates, once the time is known: to sign each variable's list, and to write
/// the update that the signature makes; and then to read the recorded `dbx`.
pub open spec fn update_actions(
    command: AuthorizeCommandView,
    timestamp: Seq<u8>,
    pk: Seq<u8>,
    kek: Seq<u8>,
    db: Seq<u8>,
    pk_signature: Seq<u8>,
    kek_signature: Seq<u8>,
    db_signature: Seq<u8>,
) -> Seq<ActionView> {
    seq![
        sign_action(command, SecureBootVariable::Pk, timestamp, pk),
        ActionView::Write {
            path: joined(command.dir, encode_utf8("PK.auth"@)),
            contents: signed_update(timestamp, pk_signature, pk)->Ok_0,
        },
        sign_action(command, SecureBootVariable::Kek, timestamp, kek),
        ActionView::Write {
            path: joined(command.dir, encode_utf8("KEK.auth"@)),
            contents: signed_update(timestamp, kek_signature, kek)->Ok_0,
        },
        sign_action(command, SecureBootVariable::Db, timestamp, db),
        ActionView::Write {
            path: joined(command.dir, encode_utf8("db.auth"@)),
            contents: signed_update(timestamp, db_signature, db)->Ok_0,
        },
        ActionView::Read { path: joined(command.dir, encode_utf8("dbx.esl"@)) },
    ]
}

/// The replies of which the updates are made.
pub open spec fn update_replies(
    timestamp: Seq<u8>,
    pk_signature: Seq<u8>,
    kek_signature: Seq<u8>,
    db_signature: Seq<u8>,
) -> Seq<ReplyView> {
    seq![
        ReplyView::Timestamp(timestamp),
        ReplyView::Bytes(pk_signature),
        ReplyView::Done,
        ReplyView::Bytes(kek_signature),
        ReplyView::Done,
        ReplyView::Bytes(db_signature),
        ReplyView::Done,
    ]
}

#[verifier::rlimit(40)]
proof fn lemma_update_steps(
    state: AuthorizationView,
    pk_signature: Seq<u8>,
    kek_signature: Seq<u8>,
    db_signature: Seq<u8>,
)
    requires
        signed_update(state.timestamp, pk_signature, state.pk) is Ok,
        signed_update(state.timestamp, kek_signature, state.kek) is Ok,
        signed_update(state.timestamp, db_signature, state.db) is Ok,
    ensures
        ({
            let a = update_actions(
                state.command,
                state.timestamp,
                state.pk,
                state.kek,
                state.db,
                pk_signature,
                kek_signature,
                db_signature,
            );
            let at = |stage: AuthorizeStage| AuthorizationView { stage, ..state };
            let pk = SecureBootVariable::Pk;
            let kek = SecureBootVariable::Kek;
            let db = SecureBootVariable::Db;
            &&& leads(
                at(AuthorizeStage::Signature(pk)),
                ReplyView::Bytes(pk_signature),
                at(AuthorizeStage::Update(pk)),
                a[1],
            )
            &&& leads(
                at(AuthorizeStage::Update(pk)),
                ReplyView::Done,
                at(AuthorizeStage::Signature(kek)),
                a[2],
            )
            &&& leads(
                at(AuthorizeStage::Signature(kek)),
                ReplyView::Bytes(kek_signature),
                at(AuthorizeStage::Update(kek)),
                a[3],
            )
            &&& leads(
                at(AuthorizeStage::Update(kek)),
                ReplyView::Done,
                at(AuthorizeStage::Signature(db)),
                a[4],
            )
            &&& leads(
                at(AuthorizeStage::Signature(db)),
                ReplyView::Bytes(db_signature),
                at(AuthorizeStage::Update(db)),
                a[5],
            )
            &&& leads(
                at(AuthorizeStage::Update(db)),
                ReplyView::Done,
                at(AuthorizeStage::Dbx),
                a[6],
            )
        }),
{
    law_record_files(state.command.dir);
    let a = update_actions(
        state.command,
        state.timestamp,
        state.pk,
        state.kek,
        state.db,
        pk_signature,
        kek_signature,
        db_signature,
    );
    let at = |stage: AuthorizeStage| AuthorizationView { stage, ..state };
    let pk = SecureBootVariable::Pk;
    let kek = SecureBootVariable::Kek;
    let db = SecureBootVariable::Db;
    assert(leads(
        at(AuthorizeStage::Signature(pk)),
        ReplyView::Bytes(pk_signature),
        at(AuthorizeStage::Update(pk)),
        a[1],
    )) by {
        reveal(one_step);
    }
    assert(leads(
        at(AuthorizeStage::Update(pk)),
        ReplyView::Done,
        at(AuthorizeStage::Signature(kek)),
        a[2],
    )) by {
        reveal(one_step);
    }
    assert(leads(
        at(AuthorizeStage::Signature(kek)),
        ReplyView::Bytes(kek_signature),
        at(AuthorizeStage::Update(kek)),
        a[3],
    )) by {
        reveal(one_step);
    }
    assert(leads(
        at(AuthorizeStage::Update(kek)),
        ReplyView::Done,
        at(AuthorizeStage::Signature(db)),
        a[4],
    )) by {
        reveal(one_step);
    }
    assert(leads(
        at(AuthorizeStage::Signature(db)),
        ReplyView::Bytes(db_signature),
        at(AuthorizeStage::Update(db)),
        a[5],
    )) by {
        reveal(one_step);
    }
    assert(leads(
        at(AuthorizeStage::Update(db)),
        ReplyView::Done,
        at(AuthorizeStage::Dbx),
        a[6],
    )) by {
        reveal(one_step);
    }
}

#[verifier::rlimit(40)]
proof fn lemma_update_run(
    state: AuthorizationView,
    timestamp: Seq<u8>,
    pk_signature: Seq<u8>,
    kek_signature: Seq<u8>,
    db_signature: Seq<u8>,
)
    requires
        state.stage == AuthorizeStage::Timestamp,
        signed_update(timestamp, pk_signature, state.pk) is Ok,
        signed_update(timestamp, kek_signature, state.kek) is Ok,
        signed_update(timestamp, db_signature, state.db) is Ok,
    ensures
        runs(
            state,
            update_replies(timestamp, pk_signature, kek_signature, db_signature),
            AuthorizationView { timestamp, stage: AuthorizeStage::Dbx, ..state },
            update_actions(
                state.command,
                timestamp,
                state.pk,
                state.kek,
                state.db,
                pk_signature,
                kek_signature,
                db_signature,
            ),
        ),
{
    let r = update_replies(timestamp, pk_signature, kek_signature, db_signature);
    let a = update_actions(
        state.command,
        timestamp,
        state.pk,
        state.kek,
        state.db,
        pk_signature,
        kek_signature,
        db_signature,
    );
    let timed = AuthorizationView { timestamp, ..state };
    let at = |stage: AuthorizeStage| AuthorizationView { stage, ..timed };
    let s1 = at(AuthorizeStage::Signature(SecureBootVariable::Pk));
    let s2 = at(AuthorizeStage::Update(SecureBootVariable::Pk));
    let s3 = at(AuthorizeStage::Signature(SecureBootVariable::Kek));
    let s4 = at(AuthorizeStage::Update(SecureBootVariable::Kek));
    let s5 = at(AuthorizeStage::Signature(SecureBootVariable::Db));
    let s6 = at(AuthorizeStage::Update(SecureBootVariable::Db));
    let s7 = at(AuthorizeStage::Dbx);
    assert(leads(state, r[0], s1, a[0])) by {
        reveal(one_step);
    }
    lemma_update_steps(timed, pk_signature, kek_signature, db_signature);
    lemma_runs_one(state, r[0], s1, a[0]);
    let r1 = seq![r[0]];
    let a1 = seq![a[0]];
    lemma_runs_step(state, r1, a1, s1, r[1], s2, a[1]);
    let r2 = r1.push(r[1]);
    let a2 = a1.push(a[1]);
    lemma_runs_step(state, r2, a2, s2, r[2], s3, a[2]);
    let r3 = r2.push(r[2]);
    let a3 = a2.push(a[2]);
    lemma_runs_step(state, r3, a3, s3, r[3], s4, a[3]);
    let r4 = r3.push(r[3]);
    let a4 = a3.push(a[3]);
    lemma_runs_step(state, r4, a4, s4, r[4], s5, a[4]);
    let r5 = r4.push(r[4]);
    let a5 = a4.push(a[4]);
    lemma_runs_step(state, r5, a5, s5, r[5], s6, a[5]);
    let r6 = r5.push(r[5]);
    let a6 = a5.push(a[5]);
    lemma_runs_step(state, r6, a6, s6, r[6], s7, a[6]);
    assert(r6.push(r[6]) =~= r);
    assert(a6.push(a[6]) =~= a);
}

/// PCR 7 after enrollment: the measurements of the state with the lists that are enrolled and the
/// `dbx` that stays, replayed from reset, where the entry of the db certificate is the authority.
pub open spec fn enrolled_pcr7(
    pk: Seq<u8>,
    kek: Seq<u8>,
    db: Seq<u8>,
    dbx: Seq<u8>,
    certificate: Seq<u8>,
) -> Seq<u8> {
    replayed(
        reset_value(),
        boot_events(StateView { pk, kek, db, dbx }, authority_in(db, certificate)->Ok_0),
    )
}

/// What is asked once the recorded `dbx` is known: to write the prediction, to read the recorded
/// PCR 7 and clock, and to write the policy for the enrolled state.
pub open spec fn prediction_actions(dir: Seq<u8>, enrolled: Seq<u8>) -> Seq<ActionView> {
    seq![
        ActionView::Write {
            path: joined(dir, encode_utf8("pcr7.enrolled"@)),
            contents: encode_utf8(hex_text(enrolled)),
        },
        ActionView::ReadText { path: joined(dir, encode_utf8("pcr7.current"@)) },
        ActionView::ReadText { path: joined(dir, encode_utf8("clock.current"@)) },
        ActionView::Write {
            path: joined(dir, encode_utf8("policy.enrolled"@)),
            contents: encode_utf8(policy_text(seq![pcr_policy(seq![(7u8, enrolled)])])),
        },
    ]
}

/// The replies of which the prediction and the approvals are made.
pub open spec fn prediction_replies(
    dbx: Seq<u8>,
    current: Seq<char>,
    clock: Seq<char>,
) -> Seq<ReplyView> {
    seq![ReplyView::Bytes(dbx), ReplyView::Done, ReplyView::Text(current), ReplyView::Text(clock)]
}

#[verifier::rlimit(40)]
proof fn lemma_prediction_run(
    state: AuthorizationView,
    dbx: Seq<u8>,
    current: Seq<char>,
    clock: Seq<char>,
)
    requires
        state.stage == AuthorizeStage::Dbx,
        (StateView { pk: state.pk, kek: state.kek, db: state.db, dbx }).fits(),
        authority_in(state.db, state.db_certificate) is Ok,
        pcr_of_text(trimmed(current)) is Ok,
        clock_of_text(trimmed(clock)) is Ok,
        clock_of_text(trimmed(clock))->Ok_0 + 60_000 * state.command.transition_minutes
            <= u64::MAX,
    ensures
        ({
            let enrolled = enrolled_pcr7(state.pk, state.kek, state.db, dbx, state.db_certificate);
            runs(
                state,
                prediction_replies(dbx, current, clock),
                AuthorizationView {
                    stage: AuthorizeStage::EnrolledPolicy,
                    enrolled,
                    current: pcr_of_text(trimmed(current))->Ok_0,
                    deadline: (clock_of_text(trimmed(clock))->Ok_0 + 60_000
                        * state.command.transition_minutes) as u64,
                    ..state
                },
                prediction_actions(state.command.dir, enrolled),
            )
        }),
{
    let enrolled = enrolled_pcr7(state.pk, state.kek, state.db, dbx, state.db_certificate);
    let r = prediction_replies(dbx, current, clock);
    let a = prediction_actions(state.command.dir, enrolled);
    let s1 = AuthorizationView { stage: AuthorizeStage::Prediction, enrolled, ..state };
    let s2 = AuthorizationView { stage: AuthorizeStage::Current, ..s1 };
    let s3 = AuthorizationView {
        stage: AuthorizeStage::Clock,
        current: pcr_of_text(trimmed(current))->Ok_0,
        ..s2
    };
    let s4 = AuthorizationView {
        stage: AuthorizeStage::EnrolledPolicy,
        deadline: (clock_of_text(trimmed(clock))->Ok_0 + 60_000
            * state.command.transition_minutes) as u64,
        ..s3
    };
    law_record_files(state.command.dir);
    assert(leads(state, r[0], s1, a[0])) by {
        reveal(one_step);
    }
    assert(leads(s1, r[1], s2, a[1]) && leads(s2, r[2], s3, a[2])) by {
        reveal(one_step);
    }
    assert(leads(s3, r[3], s4, a[3])) by {
        reveal(one_step);
    }
    lemma_runs_one(state, r[0], s1, a[0]);
    let r1 = seq![r[0]];
    let a1 = seq![a[0]];
    lemma_runs_step(state, r1, a1, s1, r[1], s2, a[1]);
    lemma_runs_step(state, r1.push(r[1]), a1.push(a[1]), s2, r[2], s3, a[2]);
    let r3 = r1.push(r[1]).push(r[2]);
    let a3 = a1.push(a[1]).push(a[2]);
    lemma_runs_step(state, r3, a3, s3, r[3], s4, a[3]);
    assert(r3.push(r[3]) =~= r);
    assert(a3.push(a[3]) =~= a);
}

/// What is asked to approve a policy for a key.
pub open spec fn approve_action(
    command: AuthorizeCommandView,
    key_file: Seq<u8>,
    name: Seq<char>,
    policy: Seq<u8>,
) -> ActionView {
    ActionView::Run { command: approval(key_file, name, policy, command.pk) }
}

/// What is asked once the policy for the enrolled state is written: to approve it for both keys, to
/// write the policy for the state before enrollment, which ends at the deadline, and to approve
/// that for both keys.
pub open spec fn approval_actions(
    command: AuthorizeCommandView,
    current: Seq<u8>,
    deadline: u64,
) -> Seq<ActionView> {
    let kek = joined(command.dir, encode_utf8("KEK.key"@));
    let db = joined(command.dir, encode_utf8("db.key"@));
    let enrolled = joined(command.dir, encode_utf8("policy.enrolled"@));
    let transition = joined(command.dir, encode_utf8("policy.transition"@));
    seq![
        approve_action(command, kek, "enrolled"@, enrolled),
        approve_action(command, db, "enrolled"@, enrolled),
        ActionView::Write {
            path: transition,
            contents: encode_utf8(
                policy_text(
                    seq![pcr_policy(seq![(7u8, current)]), policy_counter_timer(deadline)],
                ),
            ),
        },
        approve_action(command, kek, "transition"@, transition),
        approve_action(command, db, "transition"@, transition),
        ActionView::Finish,
    ]
}

#[verifier::rlimit(40)]
proof fn lemma_approval_steps(state: AuthorizationView)
    ensures
        ({
            let a = approval_actions(state.command, state.current, state.deadline);
            let at = |stage: AuthorizeStage| AuthorizationView { stage, ..state };
            let done = ReplyView::Done;
            &&& leads(
                at(AuthorizeStage::EnrolledPolicy),
                done,
                at(AuthorizeStage::EnrolledApproval(Key::Kek)),
                a[0],
            )
            &&& leads(
                at(AuthorizeStage::EnrolledApproval(Key::Kek)),
                done,
                at(AuthorizeStage::EnrolledApproval(Key::Db)),
                a[1],
            )
            &&& leads(
                at(AuthorizeStage::EnrolledApproval(Key::Db)),
                done,
                at(AuthorizeStage::TransitionPolicy),
                a[2],
            )
            &&& leads(
                at(AuthorizeStage::TransitionPolicy),
                done,
                at(AuthorizeStage::TransitionApproval(Key::Kek)),
                a[3],
            )
            &&& leads(
                at(AuthorizeStage::TransitionApproval(Key::Kek)),
                done,
                at(AuthorizeStage::TransitionApproval(Key::Db)),
                a[4],
            )
            &&& leads(
                at(AuthorizeStage::TransitionApproval(Key::Db)),
                done,
                at(AuthorizeStage::Finished),
                a[5],
            )
        }),
{
    law_record_files(state.command.dir);
    law_key_files(state.command.dir);
    let a = approval_actions(state.command, state.current, state.deadline);
    let at = |stage: AuthorizeStage| AuthorizationView { stage, ..state };
    let done = ReplyView::Done;
    assert(leads(
        at(AuthorizeStage::EnrolledPolicy),
        done,
        at(AuthorizeStage::EnrolledApproval(Key::Kek)),
        a[0],
    )) by {
        reveal(one_step);
    }
    assert(leads(
        at(AuthorizeStage::EnrolledApproval(Key::Kek)),
        done,
        at(AuthorizeStage::EnrolledApproval(Key::Db)),
        a[1],
    )) by {
        reveal(one_step);
    }
    assert(leads(
        at(AuthorizeStage::EnrolledApproval(Key::Db)),
        done,
        at(AuthorizeStage::TransitionPolicy),
        a[2],
    )) by {
        reveal(one_step);
    }
    assert(leads(
        at(AuthorizeStage::TransitionPolicy),
        done,
        at(AuthorizeStage::TransitionApproval(Key::Kek)),
        a[3],
    )) by {
        reveal(one_step);
    }
    assert(leads(
        at(AuthorizeStage::TransitionApproval(Key::Kek)),
        done,
        at(AuthorizeStage::TransitionApproval(Key::Db)),
        a[4],
    )) by {
        reveal(one_step);
    }
    assert(leads(
        at(AuthorizeStage::TransitionApproval(Key::Db)),
        done,
        at(AuthorizeStage::Finished),
        a[5],
    )) by {
        reveal(one_step);
    }
}

proof fn lemma_approval_run(state: AuthorizationView)
    requires
        state.stage == AuthorizeStage::EnrolledPolicy,
    ensures
        runs(
            state,
            Seq::new(6, |i: int| ReplyView::Done),
            AuthorizationView { stage: AuthorizeStage::Finished, ..state },
            approval_actions(state.command, state.current, state.deadline),
        ),
{
    let a = approval_actions(state.command, state.current, state.deadline);
    let done = ReplyView::Done;
    let at = |stage: AuthorizeStage| AuthorizationView { stage, ..state };
    let s1 = at(AuthorizeStage::EnrolledApproval(Key::Kek));
    let s2 = at(AuthorizeStage::EnrolledApproval(Key::Db));
    let s3 = at(AuthorizeStage::TransitionPolicy);
    let s4 = at(AuthorizeStage::TransitionApproval(Key::Kek));
    let s5 = at(AuthorizeStage::TransitionApproval(Key::Db));
    let s6 = at(AuthorizeStage::Finished);
    assert(at(AuthorizeStage::EnrolledPolicy) == state);
    lemma_approval_steps(state);
    lemma_runs_one(state, done, s1, a[0]);
    let r1 = seq![done];
    let a1 = seq![a[0]];
    lemma_runs_step(state, r1, a1, s1, done, s2, a[1]);
    let r2 = r1.push(done);
    let a2 = a1.push(a[1]);
    lemma_runs_step(state, r2, a2, s2, done, s3, a[2]);
    let r3 = r2.push(done);
    let a3 = a2.push(a[2]);
    lemma_runs_step(state, r3, a3, s3, done, s4, a[3]);
    let r4 = r3.push(done);
    let a4 = a3.push(a[3]);
    lemma_runs_step(state, r4, a4, s4, done, s5, a[4]);
    let r5 = r4.push(done);
    let a5 = a4.push(a[4]);
    lemma_runs_step(state, r5, a5, s5, done, s6, a[5]);
    assert(r5.push(done) =~= Seq::new(6, |i: int| ReplyView::Done));
    assert(a5.push(a[5]) =~= a);
}

proof fn lemma_owner_run(command: AuthorizeCommandView, random: Seq<u8>)
    ensures
        ({
            let start = authorization_of(command);
            let first = ActionView::Run {
                command: issue(command.dir, Key::Kek, command.pk, command.pk_certificate),
            };
            let issuing = AuthorizeStage::Certificate(Key::Kek);
            match command.owner {
                Some(owner) => runs(
                    start,
                    seq![ReplyView::Done],
                    AuthorizationView { owner, stage: issuing, ..start },
                    seq![first],
                ),
                None => runs(
                    start,
                    seq![ReplyView::Done, ReplyView::Random(random)],
                    AuthorizationView { owner: random_guid(random), stage: issuing, ..start },
                    seq![ActionView::Random, first],
                ),
            }
        }),
{
    let start = authorization_of(command);
    let first = ActionView::Run {
        command: issue(command.dir, Key::Kek, command.pk, command.pk_certificate),
    };
    let issuing = AuthorizeStage::Certificate(Key::Kek);
    match command.owner {
        Some(owner) => {
            let s1 = AuthorizationView { owner, stage: issuing, ..start };
            assert(leads(start, ReplyView::Done, s1, first)) by {
                reveal(one_step);
            }
            lemma_runs_one(start, ReplyView::Done, s1, first);
        },
        None => {
            let s1 = AuthorizationView { stage: AuthorizeStage::Owner, ..start };
            let s2 = AuthorizationView { owner: random_guid(random), stage: issuing, ..start };
            let reply = ReplyView::Random(random);
            assert(leads(start, ReplyView::Done, s1, ActionView::Random) && leads(
                s1,
                reply,
                s2,
                first,
            )) by {
                reveal(one_step);
            }
            lemma_runs_one(start, ReplyView::Done, s1, ActionView::Random);
            let r1 = seq![ReplyView::Done];
            let a1 = seq![ActionView::Random];
            lemma_runs_step(start, r1, a1, s1, reply, s2, first);
            assert(r1.push(reply) =~= seq![ReplyView::Done, reply]);
            assert(a1.push(first) =~= seq![ActionView::Random, first]);
        },
    }
}

/// What the caller of the authorization answers, from first to last.
pub open spec fn authorize_replies(
    command: AuthorizeCommandView,
    random: Seq<u8>,
    pk_pem: Seq<char>,
    kek_pem: Seq<char>,
    db_pem: Seq<char>,
    timestamp: Seq<u8>,
    pk_signature: Seq<u8>,
    kek_signature: Seq<u8>,
    db_signature: Seq<u8>,
    dbx: Seq<u8>,
    current: Seq<char>,
    clock: Seq<char>,
) -> Seq<ReplyView> {
    let owner_replies = match command.owner {
        Some(_) => seq![ReplyView::Done],
        None => seq![ReplyView::Done, ReplyView::Random(random)],
    };
    owner_replies + certificate_replies(pk_pem, kek_pem, db_pem) + update_replies(
        timestamp,
        pk_signature,
        kek_signature,
        db_signature,
    ) + prediction_replies(dbx, current, clock) + Seq::new(6, |i: int| ReplyView::Done)
}

/// What the caller of the authorization is asked, from first to last.
pub open spec fn authorize_actions(
    command: AuthorizeCommandView,
    random: Seq<u8>,
    pk_pem: Seq<char>,
    kek_pem: Seq<char>,
    db_pem: Seq<char>,
    timestamp: Seq<u8>,
    pk_signature: Seq<u8>,
    kek_signature: Seq<u8>,
    db_signature: Seq<u8>,
    dbx: Seq<u8>,
    current: Seq<char>,
    clock: Seq<char>,
) -> Seq<ActionView> {
    let owner = match command.owner {
        Some(owner) => owner,
        None => random_guid(random),
    };
    let pk = enrolled_list(owner, pk_pem);
    let kek = enrolled_list(owner, kek_pem);
    let db = enrolled_list(owner, db_pem);
    let certificate = pem_contents(encode_utf8(db_pem), "CERTIFICATE"@)->Ok_0;
    let enrolled = enrolled_pcr7(pk, kek, db, dbx, certificate);
    let deadline = (clock_of_text(trimmed(clock))->Ok_0 + 60_000
        * command.transition_minutes) as u64;
    let owner_actions = match command.owner {
        Some(_) => Seq::empty(),
        None => seq![ActionView::Random],
    };
    let first = ActionView::Run {
        command: issue(command.dir, Key::Kek, command.pk, command.pk_certificate),
    };
    owner_actions.push(first) + certificate_actions(command) + update_actions(
        command,
        timestamp,
        pk,
        kek,
        db,
        pk_signature,
        kek_signature,
        db_signature,
    ) + prediction_actions(command.dir, enrolled) + approval_actions(
        command,
        pcr_of_text(trimmed(current))->Ok_0,
        deadline,
    )
}

#[verifier::rlimit(40)]
proof fn lemma_whole_run(
    command: AuthorizeCommandView,
    random: Seq<u8>,
    pk_pem: Seq<char>,
    kek_pem: Seq<char>,
    db_pem: Seq<char>,
    timestamp: Seq<u8>,
    pk_signature: Seq<u8>,
    kek_signature: Seq<u8>,
    db_signature: Seq<u8>,
    dbx: Seq<u8>,
    current: Seq<char>,
    clock: Seq<char>,
) -> (end: AuthorizationView)
    requires
        ({
            let owner = match command.owner {
                Some(owner) => owner,
                None => random_guid(random),
            };
            let pk = enrolled_list(owner, pk_pem);
            let kek = enrolled_list(owner, kek_pem);
            let db = enrolled_list(owner, db_pem);
            let certificate = pem_contents(encode_utf8(db_pem), "CERTIFICATE"@)->Ok_0;
            &&& can_be_enrolled(owner, pk_pem)
            &&& can_be_enrolled(owner, kek_pem)
            &&& can_be_enrolled(owner, db_pem)
            &&& signed_update(timestamp, pk_signature, pk) is Ok
            &&& signed_update(timestamp, kek_signature, kek) is Ok
            &&& signed_update(timestamp, db_signature, db) is Ok
            &&& (StateView { pk, kek, db, dbx }).fits()
            &&& authority_in(db, certificate) is Ok
            &&& pcr_of_text(trimmed(current)) is Ok
            &&& clock_of_text(trimmed(clock)) is Ok
            &&& clock_of_text(trimmed(clock))->Ok_0 + 60_000 * command.transition_minutes
                <= u64::MAX
        }),
    ensures
        runs(
            authorization_of(command),
            authorize_replies(
                command,
                random,
                pk_pem,
                kek_pem,
                db_pem,
                timestamp,
                pk_signature,
                kek_signature,
                db_signature,
                dbx,
                current,
                clock,
            ),
            end,
            authorize_actions(
                command,
                random,
                pk_pem,
                kek_pem,
                db_pem,
                timestamp,
                pk_signature,
                kek_signature,
                db_signature,
                dbx,
                current,
                clock,
            ),
        ),
{
    let owner = match command.owner {
        Some(owner) => owner,
        None => random_guid(random),
    };
    let start = authorization_of(command);
    let pk = enrolled_list(owner, pk_pem);
    let kek = enrolled_list(owner, kek_pem);
    let db = enrolled_list(owner, db_pem);
    let certificate = pem_contents(encode_utf8(db_pem), "CERTIFICATE"@)->Ok_0;
    let enrolled = enrolled_pcr7(pk, kek, db, dbx, certificate);
    let deadline = (clock_of_text(trimmed(clock))->Ok_0 + 60_000
        * command.transition_minutes) as u64;
    let first = ActionView::Run {
        command: issue(command.dir, Key::Kek, command.pk, command.pk_certificate),
    };
    let r0 = match command.owner {
        Some(_) => seq![ReplyView::Done],
        None => seq![ReplyView::Done, ReplyView::Random(random)],
    };
    let a0 = match command.owner {
        Some(_) => Seq::empty(),
        None => seq![ActionView::Random],
    }.push(first);
    let s0 = AuthorizationView { owner, stage: AuthorizeStage::Certificate(Key::Kek), ..start };
    lemma_owner_run(command, random);
    assert(Seq::<ActionView>::empty().push(first) =~= seq![first]);
    assert(seq![ActionView::Random].push(first) =~= seq![ActionView::Random, first]);
    assert(runs(start, r0, s0, a0));
    let r1 = certificate_replies(pk_pem, kek_pem, db_pem);
    let a1 = certificate_actions(command);
    let s1 = with_certificates(s0, pk_pem, kek_pem, db_pem);
    lemma_certificate_run(s0, pk_pem, kek_pem, db_pem);
    lemma_runs_both(start, r0, a0, s0, r1, a1, s1);
    let r2 = update_replies(timestamp, pk_signature, kek_signature, db_signature);
    let a2 = update_actions(
        command,
        timestamp,
        pk,
        kek,
        db,
        pk_signature,
        kek_signature,
        db_signature,
    );
    let s2 = AuthorizationView { timestamp, stage: AuthorizeStage::Dbx, ..s1 };
    lemma_update_run(s1, timestamp, pk_signature, kek_signature, db_signature);
    lemma_runs_both(start, r0 + r1, a0 + a1, s1, r2, a2, s2);
    let r3 = prediction_replies(dbx, current, clock);
    let a3 = prediction_actions(command.dir, enrolled);
    let s3 = AuthorizationView {
        stage: AuthorizeStage::EnrolledPolicy,
        enrolled,
        current: pcr_of_text(trimmed(current))->Ok_0,
        deadline,
        ..s2
    };
    lemma_prediction_run(s2, dbx, current, clock);
    lemma_runs_both(start, r0 + r1 + r2, a0 + a1 + a2, s2, r3, a3, s3);
    let r4 = Seq::new(6, |i: int| ReplyView::Done);
    let a4 = approval_actions(command, s3.current, deadline);
    let s4 = AuthorizationView { stage: AuthorizeStage::Finished, ..s3 };
    lemma_approval_run(s3);
    lemma_runs_both(start, r0 + r1 + r2 + r3, a0 + a1 + a2 + a3, s3, r4, a4, s4);
    s4
}

proof fn lemma_runs_result(
    start: AuthorizationView,
    replies: Seq<ReplyView>,
    state: AuthorizationView,
    actions: Seq<ActionView>,
)
    requires
        runs(start, replies, state, actions),
    ensures
        authorize_run(start, replies) is Ok,
        authorize_run(start, replies)->Ok_0.1 == actions,
{
    reveal(runs);
}

/// The whole authorization, from the first question to the last. The owner is the one that is named,
/// or a random one; the certificates of both keys are issued; the lists of the three certificates
/// are signed and written as updates; PCR 7 is predicted for exactly these lists and exactly the
/// recorded `dbx`, and written down; it is approved for both keys for good; and the recorded PCR 7 is
/// approved for both keys until so many minutes after the recorded clock.
pub proof fn law_authorize_run(
    command: AuthorizeCommandView,
    random: Seq<u8>,
    pk_pem: Seq<char>,
    kek_pem: Seq<char>,
    db_pem: Seq<char>,
    timestamp: Seq<u8>,
    pk_signature: Seq<u8>,
    kek_signature: Seq<u8>,
    db_signature: Seq<u8>,
    dbx: Seq<u8>,
    current: Seq<char>,
    clock: Seq<char>,
)
    requires
        ({
            let owner = match command.owner {
                Some(owner) => owner,
                None => random_guid(random),
            };
            let pk = enrolled_list(owner, pk_pem);
            let kek = enrolled_list(owner, kek_pem);
            let db = enrolled_list(owner, db_pem);
            let certificate = pem_contents(encode_utf8(db_pem), "CERTIFICATE"@)->Ok_0;
            &&& can_be_enrolled(owner, pk_pem)
            &&& can_be_enrolled(owner, kek_pem)
            &&& can_be_enrolled(owner, db_pem)
            &&& signed_update(timestamp, pk_signature, pk) is Ok
            &&& signed_update(timestamp, kek_signature, kek) is Ok
            &&& signed_update(timestamp, db_signature, db) is Ok
            &&& (StateView { pk, kek, db, dbx }).fits()
            &&& authority_in(db, certificate) is Ok
            &&& pcr_of_text(trimmed(current)) is Ok
            &&& clock_of_text(trimmed(clock)) is Ok
            &&& clock_of_text(trimmed(clock))->Ok_0 + 60_000 * command.transition_minutes
                <= u64::MAX
        }),
    ensures
        ({
            let replies = authorize_replies(
                command,
                random,
                pk_pem,
                kek_pem,
                db_pem,
                timestamp,
                pk_signature,
                kek_signature,
                db_signature,
                dbx,
                current,
                clock,
            );
            let actions = authorize_actions(
                command,
                random,
                pk_pem,
                kek_pem,
                db_pem,
                timestamp,
                pk_signature,
                kek_signature,
                db_signature,
                dbx,
                current,
                clock,
            );
            let run = authorize_run(authorization_of(command), replies);
            run is Ok && run->Ok_0.1 == actions
        }),
{
    let replies = authorize_replies(
        command,
        random,
        pk_pem,
        kek_pem,
        db_pem,
        timestamp,
        pk_signature,
        kek_signature,
        db_signature,
        dbx,
        current,
        clock,
    );
    let actions = authorize_actions(
        command,
        random,
        pk_pem,
        kek_pem,
        db_pem,
        timestamp,
        pk_signature,
        kek_signature,
        db_signature,
        dbx,
        current,
        clock,
    );
    let end = lemma_whole_run(
        command,
        random,
        pk_pem,
        kek_pem,
        db_pem,
        timestamp,
        pk_signature,
        kek_signature,
        db_signature,
        dbx,
        current,
        clock,
    );
    lemma_runs_result(authorization_of(command), replies, end, actions);
}

proof fn lemma_only_awaited(state: AuthorizationView, reply: ReplyView)
    requires
        !awaits(state.stage, reply),
    ensures
        authorize_next(state, reply) == Err::<(AuthorizationView, ActionView), ProvisionError>(
            ProvisionError::UnexpectedReply,
        ),
{
    match state.stage {
        AuthorizeStage::Start => {},
        AuthorizeStage::Owner => {},
        AuthorizeStage::Certificate(_) => {},
        AuthorizeStage::PkCertificate => {},
        AuthorizeStage::KeyCertificate(_) => {},
        AuthorizeStage::Timestamp => {},
        AuthorizeStage::Signature(_) => {},
        AuthorizeStage::Update(_) => {},
        AuthorizeStage::Dbx => {},
        AuthorizeStage::Prediction => {},
        AuthorizeStage::Current => {},
        AuthorizeStage::Clock => {},
        AuthorizeStage::EnrolledPolicy => {},
        AuthorizeStage::EnrolledApproval(_) => {},
        AuthorizeStage::TransitionPolicy => {},
        AuthorizeStage::TransitionApproval(_) => {},
        AuthorizeStage::Finished => {},
    }
}

/// Whatever does not answer what was asked is refused.
#[verifier::rlimit(30)]
pub proof fn law_authorize_takes_nothing_else(
    state: AuthorizationView,
    reply: ReplyView,
    answer: ReplyView,
)
    requires
        authorize_next(state, reply) is Ok,
        !answers(answer, authorize_next(state, reply)->Ok_0.1),
    ensures
        authorize_next(authorize_next(state, reply)->Ok_0.0, answer) == Err::<
            (AuthorizationView, ActionView),
            ProvisionError,
        >(ProvisionError::UnexpectedReply),
{
    lemma_asks(state, reply);
    let (next, action) = authorize_next(state, reply)->Ok_0;
    lemma_awaits_nothing_else(next.stage, action, answer);
    lemma_only_awaited(next, answer);
}

proof fn lemma_awaits_nothing_else(stage: AuthorizeStage, action: ActionView, answer: ReplyView)
    requires
        asks(stage, action),
        !answers(answer, action),
    ensures
        !awaits(stage, answer),
{
}

/// Why an authorization stops, and only why: a certificate that is not in PEM or does not fit a list,
/// a signature that makes no update, variables that are too long or whose db does not hold the
/// certificate, a recorded value that cannot be read, or a deadline that the clock cannot show.
#[verifier::rlimit(30)]
pub proof fn law_authorize_refusals(state: AuthorizationView, reply: ReplyView)
    requires
        is_authorize_stage(state.stage),
        awaits(state.stage, reply),
    ensures
        ({
            let der = pem_contents(encode_utf8(reply->Text_0), "CERTIFICATE"@);
            let list = ListView::x509(state.owner, der->Ok_0).bytes();
            let after = StateView {
                pk: state.pk,
                kek: state.kek,
                db: state.db,
                dbx: reply->Bytes_0,
            };
            let authority = authority_in(state.db, state.db_certificate);
            let clock = clock_of_text(trimmed(reply->Text_0));
            let reason = match state.stage {
                AuthorizeStage::PkCertificate | AuthorizeStage::KeyCertificate(_) => if der is Err {
                    Some(ProvisionError::Certificate(der->Err_0))
                } else if list is Err {
                    Some(ProvisionError::List(list->Err_0))
                } else {
                    None
                },
                AuthorizeStage::Signature(variable) => match signed_update(
                    state.timestamp,
                    reply->Bytes_0,
                    match variable {
                        SecureBootVariable::Pk => state.pk,
                        SecureBootVariable::Kek => state.kek,
                        _ => state.db,
                    },
                ) {
                    Ok(_) => None,
                    Err(error) => Some(ProvisionError::Auth(error)),
                },
                AuthorizeStage::Dbx => if !after.fits() {
                    Some(ProvisionError::TooLarge)
                } else if authority is Err {
                    Some(ProvisionError::Predict(authority->Err_0))
                } else {
                    None
                },
                AuthorizeStage::Current => match pcr_of_text(trimmed(reply->Text_0)) {
                    Ok(_) => None,
                    Err(error) => Some(ProvisionError::Output(error)),
                },
                AuthorizeStage::Clock => if clock is Err {
                    Some(ProvisionError::Output(clock->Err_0))
                } else if clock->Ok_0 + 60_000 * state.command.transition_minutes > u64::MAX {
                    Some(ProvisionError::DeadlineOverflow)
                } else {
                    None
                },
                _ => None,
            };
            match authorize_next(state, reply) {
                Ok(_) => reason is None,
                Err(error) => reason == Some(error),
            }
        }),
{
    match state.stage {
        AuthorizeStage::Start => {},
        AuthorizeStage::Owner => {},
        AuthorizeStage::Certificate(_) => {},
        AuthorizeStage::PkCertificate => {},
        AuthorizeStage::KeyCertificate(Key::Kek) => {},
        AuthorizeStage::KeyCertificate(Key::Db) => {},
        AuthorizeStage::Timestamp => {},
        AuthorizeStage::Signature(_) => {},
        AuthorizeStage::Update(_) => {},
        AuthorizeStage::Dbx => {},
        AuthorizeStage::Prediction => {},
        AuthorizeStage::Current => {},
        AuthorizeStage::Clock => {},
        AuthorizeStage::EnrolledPolicy => {},
        AuthorizeStage::EnrolledApproval(_) => {},
        AuthorizeStage::TransitionPolicy => {},
        AuthorizeStage::TransitionApproval(_) => {},
        AuthorizeStage::Finished => {},
    }
}

/// The command that issues a certificate names the public key of the key, the PK and where the
/// certificate goes, each in its place, and is otherwise the same for both keys but for the subject.
pub proof fn law_issue_command(
    dir: Seq<u8>,
    key: Key,
    pk: Seq<char>,
    pk_certificate: Seq<u8>,
    other_dir: Seq<u8>,
    other_key: Key,
    other_pk: Seq<char>,
    other_certificate: Seq<u8>,
)
    ensures
        ({
            let a = issue(dir, key, pk, pk_certificate);
            let b = issue(other_dir, other_key, other_pk, other_certificate);
            let name = match key {
                Key::Kek => "KEK"@,
                Key::Db => "db"@,
            };
            &&& a.program == b.program && a.environment is None && b.environment is None
            &&& a.arguments.len() == 14 && b.arguments.len() == 14
            &&& forall|i: int|
                0 <= i < 14 && i != 5 && i != 7 && i != 9 && i != 11 && i != 13 ==> #[trigger]
                a.arguments[i] == b.arguments[i]
            &&& a.arguments[4] == encode_utf8("-subj"@)
            &&& a.arguments[5] == match key {
                Key::Kek => encode_utf8("/CN=Key Exchange Key (TPM)/"@),
                Key::Db => encode_utf8("/CN=Database Key (TPM)/"@),
            }
            &&& a.arguments[6] == encode_utf8("-force_pubkey"@)
            &&& a.arguments[7] == joined(dir, encode_utf8(name) + encode_utf8(".pub"@))
            &&& a.arguments[8] == encode_utf8("-CA"@) && a.arguments[9] == pk_certificate
            &&& a.arguments[10] == encode_utf8("-CAkey"@) && a.arguments[11] == encode_utf8(pk)
            &&& a.arguments[12] == encode_utf8("-out"@)
            &&& a.arguments[13] == joined(dir, encode_utf8(name) + encode_utf8(".crt"@))
        }),
{
    law_file_in(dir, key_name(key), ".pub"@);
    law_file_in(dir, key_name(key), ".crt"@);
}

/// A deadline is so many minutes of sixty thousand milliseconds behind the clock, or none where the
/// clock cannot show it.
pub proof fn law_deadline(clock: u64, minutes: u64)
    ensures
        match later(clock, minutes) {
            Ok(deadline) => deadline - clock == 60_000 * minutes,
            Err(error) => error == ProvisionError::DeadlineOverflow && clock + 60_000 * minutes
                > u64::MAX,
        },
        minutes == 0 ==> later(clock, minutes) == Ok::<u64, ProvisionError>(clock),
{
}

} // verus!
