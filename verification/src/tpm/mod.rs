//! Provisioning Secure Boot keys held in the TPM.
//!
//! The flow moves a machine to a KEK and db generated inside its TPM, usable only in PCR 7
//! states an approver (normally the PK, on a hardware token) has signed:
//!
//! 1. `init` (on the machine): create the keys and record the current Secure Boot state.
//! 2. `authorize` (where the approver key is): issue certificates and the PK/KEK/db enrollment
//!    updates, predict PCR 7 after enrollment, and approve it, plus the current state until a
//!    TPM clock deadline so the machine can re-sign its ESP before enrolling.
//! 3. `stage` (on the machine, after boot files are signed with both the old and the new db key):
//!    stage the enrollment updates for systemd-boot.
//!
//! All files live in one directory ("state directory") that is carried between machines. Only
//! the TPM key files are specific to the machine, and they are useless without its TPM.
//!
//! Each of them is a sequence of steps: the caller does what it is asked to do ([`Action`]) and
//! answers ([`Reply`]), until it is asked to finish.

use vstd::prelude::*;
use vstd::utf8::encode_utf8;

use crate::command::word;
use crate::hex::{hex_text, lemma_pairs_length};
use crate::path::{join, joined};
use crate::pcr7::{authority_in, boot_events, replayed, reset_value, StateView};
use crate::signature::local::{LocalKeyPair, LocalKeyPairView};
use crate::text::lemma_utf8_ascii;

pub mod action;
pub mod approve;
pub mod authorize;
pub mod init;
pub mod output;
pub mod stage;

pub use action::{Action, Key, ProvisionError, Reply};
pub use approve::{Approval, ApprovalStage, ApproveCommand};
pub use authorize::{Authorization, AuthorizeCommand, AuthorizeStage};
pub use init::{Init, InitCommand, InitStage};
pub use stage::{stage, ClearPk, Staging, StagingStage};

use action::{file_in, law_record_files, law_variable_contents, ActionView, ReplyView};
use authorize::{authorize_next, AuthorizationView};
use init::init_next;
use output::{
    clock_of_output, decimal_text, law_recorded_clock_reads_back, law_recorded_pcr_reads_back,
    pcr7_field, pcr7_of_output, without_prefixes,
};

verus! {

/// A command of `lzbt tpm`.
pub enum TpmCommand {
    /// Create the KEK and db in the TPM and record the current Secure Boot state
    Init(InitCommand),
    /// Issue certificates, enrollment updates and PCR 7 approvals (run where the approver is)
    Authorize(AuthorizeCommand),
    /// Approve an additional PCR 7 value for the keys (e.g. after a firmware update)
    Approve(ApproveCommand),
}

/// The steps of a command.
pub enum Provisioning {
    Init(Init),
    Authorize(Authorization),
    Approve(Approval),
}

impl TpmCommand {
    /// The steps of the command, before the first.
    pub fn start(self) -> (result: Result<Provisioning, ProvisionError>)
        ensures
            match self {
                TpmCommand::Init(command) => {
                    &&& result matches Ok(Provisioning::Init(init))
                    &&& init.dir == command.dir
                    &&& init.stage == InitStage::Start
                },
                TpmCommand::Authorize(command) => {
                    &&& result matches Ok(Provisioning::Authorize(authorization))
                    &&& authorization@ == authorize::authorization_of(command@)
                },
                TpmCommand::Approve(command) => match result {
                    Ok(Provisioning::Approve(approval)) => command.approval() == Ok::<
                        approve::ApprovalView,
                        ProvisionError,
                    >(approval@),
                    Ok(_) => false,
                    Err(error) => command.approval() == Err::<
                        approve::ApprovalView,
                        ProvisionError,
                    >(error),
                },
            },
    {
        match self {
            TpmCommand::Init(command) => Ok(Provisioning::Init(command.start())),
            TpmCommand::Authorize(command) => Ok(Provisioning::Authorize(command.start())),
            TpmCommand::Approve(command) => match command.start() {
                Ok(approval) => Ok(Provisioning::Approve(approval)),
                Err(error) => Err(error),
            },
        }
    }
}

/// The signer for the TPM db key of a state directory.
pub open spec fn db_key_pair(dir: Seq<u8>, provider: Seq<char>) -> LocalKeyPairView {
    LocalKeyPairView {
        private_key: joined(dir, word("db.key"@)),
        private_key_source: Some("provider:"@ + provider),
        public_key: joined(dir, word("db.crt"@)),
    }
}

/// A signer for the TPM db key of a state directory, given whether `db.crt` exists in it.
///
/// The provider is the module that loads TPM key files. It is given to systemd-sbsign by path, so
/// no OpenSSL configuration is needed.
pub fn db_signer(dir: &[u8], has_certificate: bool, provider: Option<String>) -> (result: Result<
    LocalKeyPair,
    ProvisionError,
>)
    ensures
        match result {
            Ok(pair) => has_certificate && provider is Some && pair@ == db_key_pair(
                dir@,
                provider->0@,
            ),
            Err(error) => if !has_certificate {
                error == ProvisionError::NotAuthorized
            } else {
                provider is None && error == ProvisionError::NoProvider
            },
        },
{
    if !has_certificate {
        return Err(ProvisionError::NotAuthorized);
    }
    match provider {
        None => Err(ProvisionError::NoProvider),
        Some(provider) => {
            let certificate = join(dir, "db.crt".as_bytes());
            let key = join(dir, "db.key".as_bytes());
            let mut source = "provider:".to_string();
            source.append(provider.as_str());
            Ok(LocalKeyPair::new(certificate.as_slice(), key.as_slice(), Some(source)))
        },
    }
}

/// The PCR 7 value that `init` records is the value that `authorize` approves for the transition:
/// the text that is written is read as the same value.
pub proof fn law_recorded_pcr_is_authorized(
    dir: Seq<u8>,
    output: Seq<char>,
    state: AuthorizationView,
)
    requires
        init_next(dir, InitStage::Pcr, ReplyView::Text(output)) is Ok,
        state.stage == AuthorizeStage::Current,
    ensures
        ({
            let value = pcr7_of_output(output)->Ok_0;
            let record = hex_text(value);
            &&& init_next(dir, InitStage::Pcr, ReplyView::Text(output))->Ok_0.1 == (
            ActionView::Write {
                path: file_in(dir, "pcr7"@, ".current"@),
                contents: encode_utf8(record),
            })
            &&& authorize_next(state, ReplyView::Text(record)) is Ok
            &&& authorize_next(state, ReplyView::Text(record))->Ok_0.0.current == value
        }),
{
    let value = pcr7_of_output(output)->Ok_0;
    lemma_pairs_length(encode_utf8(without_prefixes(pcr7_field(output)->0)));
    assert(value.len() == 32);
    law_recorded_pcr_reads_back(value);
}

/// The TPM clock that `init` records is the clock that `authorize` counts the transition from.
pub proof fn law_recorded_clock_is_authorized(
    dir: Seq<u8>,
    output: Seq<char>,
    state: AuthorizationView,
)
    requires
        init_next(dir, InitStage::Clock, ReplyView::Text(output)) is Ok,
        state.stage == AuthorizeStage::Clock,
        clock_of_output(output)->Ok_0 + state.command.transition_minutes * 60_000 <= u64::MAX,
    ensures
        ({
            let clock = clock_of_output(output)->Ok_0;
            let record = decimal_text(clock as nat);
            &&& init_next(dir, InitStage::Clock, ReplyView::Text(output))->Ok_0.1 == (
            ActionView::Write {
                path: file_in(dir, "clock"@, ".current"@),
                contents: encode_utf8(record),
            })
            &&& authorize_next(state, ReplyView::Text(record)) is Ok
            &&& authorize_next(state, ReplyView::Text(record))->Ok_0.0.deadline == clock
                + state.command.transition_minutes * 60_000
        }),
{
    law_recorded_clock_reads_back(clock_of_output(output)->Ok_0);
}

/// The `dbx` that `init` records is the one that `authorize` measures: the contents of the variable,
/// without its attributes and otherwise whole. What is written down as PCR 7 after enrollment, and
/// approved later, is the replay from reset of the boot events of the PK, KEK and db of the updates
/// with those contents.
pub proof fn law_recorded_dbx_is_measured(
    dir: Seq<u8>,
    attributes: Seq<u8>,
    contents: Seq<u8>,
    state: AuthorizationView,
)
    requires
        attributes.len() == 4,
        state.stage == AuthorizeStage::Dbx,
        (StateView { pk: state.pk, kek: state.kek, db: state.db, dbx: contents }).fits(),
        authority_in(state.db, state.db_certificate) is Ok,
    ensures
        ({
            let recorded = init_next(
                dir,
                InitStage::Dbx,
                ReplyView::Present(Some(attributes + contents)),
            );
            let predicted = authorize_next(state, ReplyView::Bytes(contents));
            let enrolled = replayed(
                reset_value(),
                boot_events(
                    StateView { pk: state.pk, kek: state.kek, db: state.db, dbx: contents },
                    authority_in(state.db, state.db_certificate)->Ok_0,
                ),
            );
            &&& recorded is Ok
            &&& recorded->Ok_0.1 == (ActionView::Write {
                path: joined(dir, encode_utf8("dbx.esl"@)),
                contents,
            })
            &&& predicted is Ok
            &&& predicted->Ok_0.0.enrolled == enrolled
            &&& predicted->Ok_0.1 == (ActionView::Write {
                path: joined(state.command.dir, encode_utf8("pcr7.enrolled"@)),
                contents: encode_utf8(hex_text(enrolled)),
            })
        }),
{
    law_variable_contents(attributes, contents, Seq::empty());
    law_record_files(dir);
    law_record_files(state.command.dir);
}

/// A machine without a `dbx` is measured with an empty one.
pub proof fn law_missing_dbx_is_empty(dir: Seq<u8>)
    ensures
        init_next(dir, InitStage::Dbx, ReplyView::Present(None)) == Ok::<
            (InitStage, ActionView),
            ProvisionError,
        >(
            (
                InitStage::DbxRecord,
                ActionView::Write {
                    path: joined(dir, encode_utf8("dbx.esl"@)),
                    contents: Seq::empty(),
                },
            ),
        ),
{
    law_record_files(dir);
}

/// The db key of a state directory is signed with as its key file, by its certificate, through the
/// provider.
pub proof fn law_db_key_pair(dir: Seq<u8>, provider: Seq<char>)
    ensures
        ({
            let pair = db_key_pair(dir, provider);
            let source = pair.private_key_source->0;
            &&& pair.private_key == joined(dir, seq![0x64u8, 0x62, 0x2e, 0x6b, 0x65, 0x79])
            &&& pair.public_key == joined(dir, seq![0x64u8, 0x62, 0x2e, 0x63, 0x72, 0x74])
            &&& pair.private_key_source is Some
            &&& source.len() == 9 + provider.len()
            &&& source.take(9) == seq!['p', 'r', 'o', 'v', 'i', 'd', 'e', 'r', ':']
            &&& source.skip(9) == provider
        }),
{
    reveal_strlit("db.key");
    reveal_strlit("db.crt");
    reveal_strlit("provider:");
    lemma_utf8_ascii("db.key"@);
    lemma_utf8_ascii("db.crt"@);
    assert(word("db.key"@) =~= seq![0x64u8, 0x62, 0x2e, 0x6b, 0x65, 0x79]);
    assert(word("db.crt"@) =~= seq![0x64u8, 0x62, 0x2e, 0x63, 0x72, 0x74]);
    let source = db_key_pair(dir, provider).private_key_source->0;
    assert(source.take(9) =~= seq!['p', 'r', 'o', 'v', 'i', 'd', 'e', 'r', ':']);
    assert(source.skip(9) =~= provider);
}

} // verus!
