//! Keys held by a TPM, in the TSS2 key file format of openssl_tpm2_engine
//! (`-----BEGIN TSS2 PRIVATE KEY-----`).
//!
//! A key file is a wrapped blob only the TPM that created it can load. Keys are created with a
//! signed policy: they are usable only in a state (e.g. a PCR 7 value) that an approver key has
//! signed an approval for. Approvals are stored in the key file itself.
//!
//! Creating keys and adding approvals is left to the engine's tools, the same way signing goes
//! through its OpenSSL provider; reading the public half is done here, because it needs no TPM.

use vstd::prelude::*;
use vstd::slice::slice_subrange;
use vstd::utf8::encode_utf8;

use crate::bytes::{
    be_bytes, be_value, byte_range, law_be_round_trip, law_byte_ranges, law_place_values, lemma_widths,
    push_all, push_u16_be, push_u32_be, push_u64_be, to_vec, views,
};
use crate::command::{command_line, word, Command, CommandView};
use crate::der::{
    element, element_at_start, encoded, expect, law_element_round_trip, tagged_at_start, DerError,
};
use crate::hex::{hex_text, law_hex_round_trip, lemma_hex_characters, push_hex};
use crate::pem::{law_pem_round_trip, pem_block, pem_contents, pem_decode, PemError};
use crate::sha256::{sha256, sha256_digest, MAX_MESSAGE};

verus! {

pub const TPM_ALG_RSA: u16 = 0x0001;

pub const TPM_ALG_NULL: u16 = 0x0010;

pub const TPM_CC_POLICY_PCR: u32 = 0x0000_017f;

pub const TPM_CC_POLICY_COUNTER_TIMER: u32 = 0x0000_016d;

pub const TPM_ALG_SHA256: u16 = 0x000b;

pub const TPM_EO_UNSIGNED_LE: u16 = 0x0009;

/// Offset of `clockInfo.clock` in `TPMS_TIME_INFO` (after `time`, a UINT64).
pub const CLOCK_OFFSET: u16 = 8;

/// Why the public key of a key file could not be read.
#[derive(Clone, Copy, PartialEq, Eq, Debug, Structural)]
pub enum TpmKeyError {
    /// The file holds no key in PEM.
    Pem(PemError),
    /// A TSS2 key file is a DER SEQUENCE.
    NotSequence(DerError),
    /// A field of the key is no DER element.
    Field(DerError),
    /// The key has no OCTET STRING, and so no public area.
    NoPublicArea,
    /// The size in the public area is not the size of the public area.
    Size,
    /// Only RSA keys are supported.
    NotRsa,
    /// The public area ends before the key does.
    Truncated,
}

/// How a key is created.
pub open spec fn creation(key_file: Seq<u8>, approver: Seq<u8>) -> CommandView {
    command_line(
        "create_tpm2_key"@,
        seq![
            word("--rsa"@),
            word("--key-size"@),
            word("2048"@),
            word("--signed-policy"@),
            approver,
            key_file,
        ],
    )
}

/// The command that creates an RSA 2048 key in the TPM, usable only under policies signed by
/// `approver` (a PEM public key).
pub fn create_command(key_file: &[u8], approver: &[u8]) -> (command: Command)
    ensures
        command@ == creation(key_file@, approver@),
{
    let mut command = Command::new("create_tpm2_key");
    command.push_text("--rsa");
    command.push_text("--key-size");
    command.push_text("2048");
    command.push_text("--signed-policy");
    command.push(approver);
    command.push(key_file);
    assert(command@ =~= creation(key_file@, approver@));
    command
}

/// How an approval is added.
pub open spec fn approval(
    key_file: Seq<u8>,
    name: Seq<char>,
    policy: Seq<u8>,
    approver: Seq<char>,
) -> CommandView {
    command_line(
        "signed_tpm2_policy"@,
        seq![
            word("add"@),
            word("-n"@),
            word(name),
            word("-c"@),
            policy,
            key_file,
            word(approver),
        ],
    )
}

/// The command that adds an approval to a key: `policy` is a policy file (see [`Policy`]), signed
/// with `approver` (anything OpenSSL can load: a PEM file, or e.g. a `pkcs11:` URI through
/// `OPENSSL_CONF`).
pub fn approve_command(key_file: &[u8], name: &str, policy: &[u8], approver: &str) -> (command:
    Command)
    ensures
        command@ == approval(key_file@, name@, policy@, approver@),
{
    let mut command = Command::new("signed_tpm2_policy");
    command.push_text("add");
    command.push_text("-n");
    command.push_text(name);
    command.push_text("-c");
    command.push(policy);
    command.push(key_file);
    command.push_text(approver);
    assert(command@ =~= approval(key_file@, name@, policy@, approver@));
    command
}

/// What PCRs and their values stand for.
pub open spec fn pcr_views(pcrs: Seq<(u8, [u8; 32])>) -> Seq<(u8, Seq<u8>)> {
    pcrs.map_values(|pcr: (u8, [u8; 32])| (pcr.0, pcr.1@))
}

/// The values that are given for a PCR, in the order in which they are given.
pub open spec fn values_of(pcrs: Seq<(u8, Seq<u8>)>, index: int) -> Seq<u8>
    decreases pcrs.len(),
{
    if pcrs.len() == 0 {
        Seq::empty()
    } else if pcrs.last().0 == index {
        values_of(pcrs.drop_last(), index) + pcrs.last().1
    } else {
        values_of(pcrs.drop_last(), index)
    }
}

/// The values that are given for the PCRs below `end`, in the order of the PCRs.
pub open spec fn values_below(pcrs: Seq<(u8, Seq<u8>)>, end: int) -> Seq<u8>
    decreases end,
{
    if end <= 0 {
        Seq::empty()
    } else {
        values_below(pcrs, end - 1) + values_of(pcrs, end - 1)
    }
}

/// Whether a value is given for a PCR.
pub open spec fn is_selected(pcrs: Seq<(u8, Seq<u8>)>, index: int) -> bool {
    exists|i: int| 0 <= i < pcrs.len() && (#[trigger] pcrs[i]).0 == index
}

/// The bit of a PCR in its byte of the selection.
pub open spec fn selection_bit(pcrs: Seq<(u8, Seq<u8>)>, index: int, bit: nat) -> nat {
    if is_selected(pcrs, index) {
        bit
    } else {
        0
    }
}

/// The byte of the selection for the PCRs from `first` to `first + 7`, least significant first.
pub open spec fn selection_byte(pcrs: Seq<(u8, Seq<u8>)>, first: int) -> u8 {
    (selection_bit(pcrs, first, 1) + selection_bit(pcrs, first + 1, 2) + selection_bit(
        pcrs,
        first + 2,
        4,
    ) + selection_bit(pcrs, first + 3, 8) + selection_bit(pcrs, first + 4, 16) + selection_bit(
        pcrs,
        first + 5,
        32,
    ) + selection_bit(pcrs, first + 6, 64) + selection_bit(pcrs, first + 7, 128)) as u8
}

/// The `TPM2_PolicyPCR` command for PCRs, given the digest of their values.
pub open spec fn policy_pcr(pcrs: Seq<(u8, Seq<u8>)>, digest: Seq<u8>) -> Seq<u8> {
    be_bytes(TPM_CC_POLICY_PCR as nat, 4) + be_bytes(1, 4) + be_bytes(TPM_ALG_SHA256 as nat, 2)
        + seq![
        3u8,
        selection_byte(pcrs, 0),
        selection_byte(pcrs, 8),
        selection_byte(pcrs, 16),
    ] + digest
}

/// The `TPM2_PolicyPCR` command for PCRs.
pub open spec fn pcr_policy(pcrs: Seq<(u8, Seq<u8>)>) -> Seq<u8> {
    policy_pcr(pcrs, sha256_digest(values_below(pcrs, 24)))
}

/// The `TPM2_PolicyCounterTimer` command for a limit of the TPM clock.
pub open spec fn policy_counter_timer(clock: u64) -> Seq<u8> {
    be_bytes(TPM_CC_POLICY_COUNTER_TIMER as nat, 4) + be_bytes(clock as nat, 8) + be_bytes(
        CLOCK_OFFSET as nat,
        2,
    ) + be_bytes(TPM_EO_UNSIGNED_LE as nat, 2)
}

/// The policy file of commands: a line of hexadecimal digits for each.
pub open spec fn policy_text(commands: Seq<Seq<u8>>) -> Seq<char>
    decreases commands.len(),
{
    if commands.len() == 0 {
        Seq::empty()
    } else {
        policy_text(commands.drop_last()) + hex_text(commands.last()) + seq!['\n']
    }
}

/// Whether a value is given for a PCR.
fn selects(pcrs: &[(u8, [u8; 32])], index: u8) -> (result: bool)
    ensures
        result == is_selected(pcr_views(pcrs@), index as int),
{
    let mut i: usize = 0;
    while i < pcrs.len()
        invariant
            i <= pcrs@.len(),
            forall|j: int| 0 <= j < i ==> (#[trigger] pcrs@[j]).0 != index,
        decreases pcrs@.len() - i,
    {
        if pcrs[i].0 == index {
            assert(pcr_views(pcrs@)[i as int].0 == index);
            return true;
        }
        i += 1;
    }
    assert forall|j: int| 0 <= j < pcrs@.len() implies (#[trigger] pcr_views(pcrs@)[j]).0
        != index by {
        assert(pcrs@[j].0 != index);
    }
    false
}

/// The bit of a PCR in its byte of the selection.
fn bit_of(pcrs: &[(u8, [u8; 32])], index: u8, bit: u8) -> (result: u8)
    ensures
        result == selection_bit(pcr_views(pcrs@), index as int, bit as nat),
        result <= bit,
{
    if selects(pcrs, index) {
        bit
    } else {
        0
    }
}

/// The byte of the selection for the PCRs from `first` to `first + 7`.
fn selection(pcrs: &[(u8, [u8; 32])], first: u8) -> (byte: u8)
    requires
        first <= 16,
    ensures
        byte == selection_byte(pcr_views(pcrs@), first as int),
{
    bit_of(pcrs, first, 1) + bit_of(pcrs, first + 1, 2) + bit_of(pcrs, first + 2, 4) + bit_of(
        pcrs,
        first + 3,
        8,
    ) + bit_of(pcrs, first + 4, 16) + bit_of(pcrs, first + 5, 32) + bit_of(pcrs, first + 6, 64)
        + bit_of(pcrs, first + 7, 128)
}

/// What is hashed for a policy on PCRs: their values, in the order of the PCRs.
pub fn pcr_message(pcrs: &[(u8, [u8; 32])]) -> (message: Vec<u8>)
    ensures
        message@ == values_below(pcr_views(pcrs@), 24),
{
    let ghost given = pcr_views(pcrs@);
    let mut message: Vec<u8> = Vec::new();
    let mut index: u8 = 0;
    while index < 24
        invariant
            index <= 24,
            given == pcr_views(pcrs@),
            message@ == values_below(given, index as int),
        decreases 24 - index,
    {
        let ghost before = message@;
        let mut i: usize = 0;
        assert(before + values_of(given.take(0), index as int) =~= before);
        while i < pcrs.len()
            invariant
                i <= pcrs@.len(),
                given == pcr_views(pcrs@),
                message@ == before + values_of(given.take(i as int), index as int),
            decreases pcrs@.len() - i,
        {
            assert(given.take(i + 1).drop_last() =~= given.take(i as int));
            assert(given[i as int] == (pcrs@[i as int].0, pcrs@[i as int].1@));
            if pcrs[i].0 == index {
                push_all(&mut message, pcrs[i].1.as_slice());
                assert(message@ =~= before + values_of(given.take(i + 1), index as int));
            }
            i += 1;
        }
        assert(given.take(i as int) =~= given);
        index += 1;
    }
    message
}

/// The `TPM2_PolicyPCR` command for PCRs, given the digest of what [`pcr_message`] gives for them.
pub fn pcr_command(pcrs: &[(u8, [u8; 32])], digest: &[u8; 32]) -> (command: Vec<u8>)
    ensures
        command@ == policy_pcr(pcr_views(pcrs@), digest@),
{
    let mut command: Vec<u8> = Vec::new();
    push_u32_be(&mut command, TPM_CC_POLICY_PCR);
    push_u32_be(&mut command, 1);  // TPML_PCR_SELECTION.count
    push_u16_be(&mut command, TPM_ALG_SHA256);
    command.push(3);
    command.push(selection(pcrs, 0));
    command.push(selection(pcrs, 8));
    command.push(selection(pcrs, 16));
    push_all(&mut command, digest.as_slice());
    assert(command@ =~= policy_pcr(pcr_views(pcrs@), digest@));
    command
}

/// A policy an approver signs, as a sequence of TPM policy commands. Serializes to the
/// engine's policy file format: one hex-encoded command (code + parameters) per line.
pub struct Policy(Vec<Vec<u8>>);

impl View for Policy {
    type V = Seq<Seq<u8>>;

    closed spec fn view(&self) -> Seq<Seq<u8>> {
        views(self.0@)
    }
}

impl Default for Policy {
    fn default() -> (policy: Policy)
        ensures
            policy@ == Seq::<Seq<u8>>::empty(),
    {
        let policy = Policy(Vec::new());
        assert(policy@ =~= Seq::<Seq<u8>>::empty());
        policy
    }
}

impl Policy {
    fn with(self, command: Vec<u8>) -> (policy: Policy)
        ensures
            policy@ == self@.push(command@),
    {
        let mut commands = self.0;
        commands.push(command);
        let policy = Policy(commands);
        assert(policy@ =~= self@.push(command@));
        policy
    }

    /// `TPM2_PolicyPCR`: the given SHA-256 PCRs have exactly these values.
    ///
    /// A TPM has 24 PCRs, and the values can be hashed.
    pub fn pcrs(self, pcrs: &[(u8, [u8; 32])]) -> (policy: Policy)
        requires
            forall|i: int| 0 <= i < pcrs@.len() ==> (#[trigger] pcrs@[i]).0 < 24,
            32 * pcrs@.len() <= MAX_MESSAGE,
        ensures
            policy@ == self@.push(pcr_policy(pcr_views(pcrs@))),
    {
        let message = pcr_message(pcrs);
        proof {
            lemma_message_length(pcr_views(pcrs@));
        }
        let digest: [u8; 32] = sha256(message.as_slice());
        self.with(pcr_command(pcrs, &digest))
    }

    /// `TPM2_PolicyCounterTimer`: the TPM clock (milliseconds, only moves forward) is at most
    /// `clock`.
    pub fn until_clock(self, clock: u64) -> (policy: Policy)
        ensures
            policy@ == self@.push(policy_counter_timer(clock)),
    {
        let mut command: Vec<u8> = Vec::new();
        push_u32_be(&mut command, TPM_CC_POLICY_COUNTER_TIMER);
        push_u64_be(&mut command, clock);
        push_u16_be(&mut command, CLOCK_OFFSET);
        push_u16_be(&mut command, TPM_EO_UNSIGNED_LE);
        assert(command@ =~= policy_counter_timer(clock));
        self.with(command)
    }

    pub fn to_file_contents(&self) -> (text: String)
        ensures
            text@ == policy_text(self@),
    {
        let mut text = String::new();
        let mut i: usize = 0;
        assert(self@.take(0) =~= Seq::empty());
        assert(text@ =~= Seq::<char>::empty());
        while i < self.0.len()
            invariant
                i <= self.0@.len(),
                text@ == policy_text(self@.take(i as int)),
            decreases self.0@.len() - i,
        {
            push_hex(&mut text, self.0[i].as_slice());
            text.push('\n');
            i += 1;
            proof {
                let done = self@.take(i as int);
                assert(done.drop_last() =~= self@.take(i - 1));
                assert(text@ =~= policy_text(done));
            }
        }
        assert(self@.take(i as int) =~= self@);
        text
    }
}

/// Each PCR that is given adds at most its own value to what is hashed.
proof fn lemma_values_below(pcrs: Seq<(u8, Seq<u8>)>, end: int)
    requires
        pcrs.len() > 0,
        pcrs.last().1.len() == 32,
    ensures
        values_below(pcrs, end).len() == values_below(pcrs.drop_last(), end).len() + (
        if pcrs.last().0 < end {
            32int
        } else {
            0
        }),
    decreases end,
{
    if end > 0 {
        lemma_values_below(pcrs, end - 1);
    }
}

/// What is hashed for a policy on PCRs is no longer than the values that are given.
proof fn lemma_message_length(pcrs: Seq<(u8, Seq<u8>)>)
    requires
        forall|i: int| 0 <= i < pcrs.len() ==> (#[trigger] pcrs[i]).1.len() == 32,
    ensures
        values_below(pcrs, 24).len() <= 32 * pcrs.len(),
    decreases pcrs.len(),
{
    if pcrs.len() == 0 {
        lemma_no_values(pcrs, 24);
    } else {
        let front = pcrs.drop_last();
        assert(pcrs[pcrs.len() - 1].1.len() == 32);
        assert forall|i: int| 0 <= i < front.len() implies (#[trigger] front[i]).1.len() == 32 by {
            assert(front[i] == pcrs[i]);
        }
        lemma_values_below(pcrs, 24);
        lemma_message_length(front);
    }
}

proof fn lemma_no_values(pcrs: Seq<(u8, Seq<u8>)>, end: int)
    requires
        pcrs.len() == 0,
    ensures
        values_below(pcrs, end).len() == 0,
    decreases end,
{
    if end > 0 {
        lemma_no_values(pcrs, end - 1);
    }
}

/// Whether no PCR is given twice.
pub open spec fn are_distinct(pcrs: Seq<(u8, Seq<u8>)>) -> bool {
    forall|i: int, j: int|
        0 <= i < j < pcrs.len() ==> (#[trigger] pcrs[i]).0 != (#[trigger] pcrs[j]).0
}

/// The value of a PCR that is given once.
proof fn lemma_single_value(pcrs: Seq<(u8, Seq<u8>)>, index: int)
    requires
        are_distinct(pcrs),
    ensures
        forall|i: int|
            0 <= i < pcrs.len() && (#[trigger] pcrs[i]).0 == index ==> values_of(pcrs, index)
                == pcrs[i].1,
        !is_selected(pcrs, index) ==> values_of(pcrs, index) == Seq::<u8>::empty(),
    decreases pcrs.len(),
{
    if pcrs.len() > 0 {
        let front = pcrs.drop_last();
        assert forall|i: int, j: int| 0 <= i < j < front.len() implies (#[trigger] front[i]).0 != (
        #[trigger] front[j]).0 by {
            assert(pcrs[i].0 != pcrs[j].0);
        }
        lemma_single_value(front, index);
        if is_selected(front, index) {
            let i = choose|i: int| 0 <= i < front.len() && (#[trigger] front[i]).0 == index;
            assert(pcrs[i].0 == index);
            assert(pcrs[i].0 != pcrs[pcrs.len() - 1].0);
        } else {
            assert(values_of(front, index) =~= Seq::empty());
            assert(values_of(front, index) + pcrs.last().1 =~= pcrs.last().1);
        }
        assert forall|i: int| 0 <= i < pcrs.len() && (#[trigger] pcrs[i]).0 == index implies
            values_of(pcrs, index) == pcrs[i].1 by {
            if i < front.len() {
                assert(front[i].0 == index);
                assert(pcrs[i].0 != pcrs[pcrs.len() - 1].0);
            } else {
                assert forall|j: int| 0 <= j < front.len() implies (#[trigger] front[j]).0
                    != index by {
                    assert(pcrs[j].0 != pcrs[i].0);
                }
            }
        }
        if !is_selected(pcrs, index) {
            assert(pcrs[pcrs.len() - 1].0 != index);
            assert forall|j: int| 0 <= j < front.len() implies (#[trigger] front[j]).0 != index by {
                assert(pcrs[j].0 != index);
            }
        }
    }
}

proof fn lemma_same_values(a: Seq<(u8, Seq<u8>)>, b: Seq<(u8, Seq<u8>)>, end: int)
    requires
        are_distinct(a),
        are_distinct(b),
        forall|pcr: (u8, Seq<u8>)| a.contains(pcr) <==> b.contains(pcr),
    ensures
        values_below(a, end) == values_below(b, end),
        forall|index: int| is_selected(a, index) <==> is_selected(b, index),
    decreases end,
{
    assert forall|index: int| is_selected(a, index) implies is_selected(b, index) by {
        lemma_selection_moves(a, b, index);
    }
    assert forall|index: int| is_selected(b, index) implies is_selected(a, index) by {
        lemma_selection_moves(b, a, index);
    }
    if end > 0 {
        lemma_same_values(a, b, end - 1);
        lemma_single_value(a, end - 1);
        lemma_single_value(b, end - 1);
        if is_selected(a, end - 1) {
            lemma_selection_moves(a, b, end - 1);
        }
    }
}

/// A PCR that is selected among some is selected among others that hold the same, with its value.
proof fn lemma_selection_moves(a: Seq<(u8, Seq<u8>)>, b: Seq<(u8, Seq<u8>)>, index: int)
    requires
        is_selected(a, index),
        forall|pcr: (u8, Seq<u8>)| a.contains(pcr) <==> b.contains(pcr),
    ensures
        is_selected(b, index),
        exists|i: int, j: int|
            0 <= i < a.len() && 0 <= j < b.len() && (#[trigger] a[i]).0 == index && a[i] == (
            #[trigger] b[j]),
{
    let i = choose|i: int| 0 <= i < a.len() && (#[trigger] a[i]).0 == index;
    assert(a.contains(a[i]));
    let j = choose|j: int| 0 <= j < b.len() && #[trigger] b[j] == a[i];
    assert(b[j].0 == index);
}

/// A policy on a single PCR is on the digest of its value.
pub proof fn law_single_pcr(index: u8, value: Seq<u8>)
    requires
        index < 24,
    ensures
        pcr_policy(seq![(index, value)]) == policy_pcr(seq![(index, value)], sha256_digest(value)),
{
    lemma_single_pcr(index, value, 24);
}

proof fn lemma_single_pcr(index: u8, value: Seq<u8>, end: int)
    requires
        index < 24,
    ensures
        values_below(seq![(index, value)], end) == if index < end {
            value
        } else {
            Seq::empty()
        },
    decreases end,
{
    let pcrs = seq![(index, value)];
    if end > 0 {
        lemma_single_pcr(index, value, end - 1);
        assert(pcrs.drop_last() =~= Seq::empty());
        assert(values_of(pcrs.drop_last(), end - 1) =~= Seq::empty());
        assert(values_below(pcrs, end) =~= if index < end {
            value
        } else {
            Seq::empty()
        });
    }
}

/// The order in which PCRs are given does not matter, as long as none is given twice.
pub proof fn law_pcr_order_is_irrelevant(a: Seq<(u8, Seq<u8>)>, b: Seq<(u8, Seq<u8>)>)
    requires
        are_distinct(a),
        are_distinct(b),
        forall|pcr: (u8, Seq<u8>)| a.contains(pcr) <==> b.contains(pcr),
    ensures
        pcr_policy(a) == pcr_policy(b),
{
    lemma_same_values(a, b, 24);
    lemma_same_selection(a, b, 0);
    lemma_same_selection(a, b, 8);
    lemma_same_selection(a, b, 16);
}

proof fn lemma_same_selection(a: Seq<(u8, Seq<u8>)>, b: Seq<(u8, Seq<u8>)>, first: int)
    requires
        forall|index: int| is_selected(a, index) <==> is_selected(b, index),
    ensures
        selection_byte(a, first) == selection_byte(b, first),
{
    assert forall|index: int, bit: nat| #[trigger]
        selection_bit(a, index, bit) == selection_bit(b, index, bit) by {
        assert(is_selected(a, index) <==> is_selected(b, index));
    }
}

/// The policy file determines the commands.
#[verifier::rlimit(30)]
pub proof fn law_policy_text_is_injective(a: Seq<Seq<u8>>, b: Seq<Seq<u8>>)
    requires
        policy_text(a) == policy_text(b),
    ensures
        a == b,
    decreases a.len(),
{
    if a.len() > 0 && b.len() > 0 {
        let text = policy_text(a);
        let front = policy_text(a.drop_last());
        let other_front = policy_text(b.drop_last());
        let line = hex_text(a.last());
        let other_line = hex_text(b.last());
        lemma_hex_characters(a.last());
        lemma_hex_characters(b.last());
        lemma_ends_line(a.drop_last());
        lemma_ends_line(b.drop_last());
        assert(text == front + line + seq!['\n']);
        assert(text == other_front + other_line + seq!['\n']);
        if line.len() < other_line.len() {
            assert(front.len() > other_front.len());
            assert(text[front.len() - 1] == '\n');
            assert(text[front.len() - 1] == other_line[front.len() - 1 - other_front.len()]);
        }
        if other_line.len() < line.len() {
            assert(other_front.len() > front.len());
            assert(text[other_front.len() - 1] == '\n');
            assert(text[other_front.len() - 1] == line[other_front.len() - 1 - front.len()]);
        }
        assert(text.take(front.len() as int) =~= front);
        assert(text.take(front.len() as int) =~= other_front);
        let end = text.len() - 1;
        assert(text.subrange(front.len() as int, end) =~= line);
        assert(text.subrange(front.len() as int, end) =~= other_line);
        law_hex_round_trip(a.last());
        law_hex_round_trip(b.last());
        law_policy_text_is_injective(a.drop_last(), b.drop_last());
        assert(a =~= a.drop_last().push(a.last()));
        assert(b =~= b.drop_last().push(b.last()));
    } else {
        assert(a =~= b);
    }
}

/// A policy file is empty or ends its last line.
proof fn lemma_ends_line(commands: Seq<Seq<u8>>)
    ensures
        policy_text(commands).len() > 0 ==> policy_text(commands).last() == '\n',
{
}

/// The first OCTET STRING of a sequence of DER elements.
pub open spec fn first_octet_string(fields: Seq<u8>) -> Result<Seq<u8>, TpmKeyError>
    decreases fields.len(),
{
    if fields.len() == 0 {
        Err(TpmKeyError::NoPublicArea)
    } else {
        match element_at_start(fields) {
            Err(error) => Err(TpmKeyError::Field(error)),
            Ok(field) => if field.tag == 0x04 {
                Ok(field.contents)
            } else {
                first_octet_string(fields.skip(field.len as int))
            },
        }
    }
}

/// The public area of a key: the first OCTET STRING at its top level.
pub open spec fn public_area(key: Seq<u8>) -> Result<Seq<u8>, TpmKeyError> {
    match tagged_at_start(key, 0x30) {
        Err(error) => Err(TpmKeyError::NotSequence(error)),
        Ok(key) => first_octet_string(key.contents),
    }
}

/// The big-endian number in the two bytes at an offset.
pub open spec fn u16_at(bytes: Seq<u8>, offset: int) -> nat {
    be_value(bytes.subrange(offset, offset + 2))
}

/// The big-endian number in the four bytes at an offset.
pub open spec fn u32_at(bytes: Seq<u8>, offset: int) -> nat {
    be_value(bytes.subrange(offset, offset + 4))
}

/// The size of a symmetric algorithm: the algorithm, then key bits and mode unless it is null.
pub open spec fn symmetric_size(algorithm: nat) -> int {
    if algorithm == TPM_ALG_NULL {
        2
    } else {
        6
    }
}

/// The size of a scheme: the scheme, then its hash unless it is null.
pub open spec fn scheme_size(algorithm: nat) -> int {
    if algorithm == TPM_ALG_NULL {
        2
    } else {
        4
    }
}

/// The exponent of a key: none given is the default.
pub open spec fn exponent_or_default(exponent: nat) -> nat {
    if exponent == 0 {
        65537
    } else {
        exponent
    }
}

/// The modulus and exponent in the part of an RSA public area from `offset` on: key bits,
/// exponent, and modulus with its size.
pub open spec fn rsa_key_at(area: Seq<u8>, offset: int) -> Result<(Seq<u8>, nat), TpmKeyError> {
    if area.len() < offset + 8 || area.len() < offset + 8 + u16_at(area, offset + 6) {
        Err(TpmKeyError::Truncated)
    } else {
        Ok(
            (
                area.subrange(offset + 8, offset + 8 + u16_at(area, offset + 6)),
                exponent_or_default(u32_at(area, offset + 2)),
            ),
        )
    }
}

/// The modulus and exponent in the part of an RSA public area from `offset` on: symmetric
/// algorithm, scheme, and what follows.
pub open spec fn rsa_parameters_at(area: Seq<u8>, offset: int) -> Result<
    (Seq<u8>, nat),
    TpmKeyError,
> {
    if area.len() < offset + 2 {
        Err(TpmKeyError::Truncated)
    } else {
        let scheme = offset + symmetric_size(u16_at(area, offset));
        if area.len() < scheme + 2 {
            Err(TpmKeyError::Truncated)
        } else {
            rsa_key_at(area, scheme + scheme_size(u16_at(area, scheme)))
        }
    }
}

/// The modulus and exponent in a `TPM2B_PUBLIC` of an RSA key: size, type, name algorithm,
/// attributes, policy with its size, and the RSA parameters.
pub open spec fn rsa_public(area: Seq<u8>) -> Result<(Seq<u8>, nat), TpmKeyError> {
    if area.len() < 2 {
        Err(TpmKeyError::Truncated)
    } else if u16_at(area, 0) != area.len() - 2 {
        Err(TpmKeyError::Size)
    } else if area.len() < 4 {
        Err(TpmKeyError::Truncated)
    } else if u16_at(area, 2) != TPM_ALG_RSA {
        Err(TpmKeyError::NotRsa)
    } else if area.len() < 12 {
        Err(TpmKeyError::Truncated)
    } else {
        rsa_parameters_at(area, 12 + u16_at(area, 10) as int)
    }
}

/// The RSA public key of the text of a key file.
pub open spec fn key_file_public(text: Seq<char>) -> Result<(Seq<u8>, nat), TpmKeyError> {
    match pem_contents(encode_utf8(text), "TSS2 PRIVATE KEY"@) {
        Err(error) => Err(TpmKeyError::Pem(error)),
        Ok(key) => match public_area(key) {
            Err(error) => Err(error),
            Ok(area) => rsa_public(area),
        },
    }
}

/// What is left to read of a public area.
struct Reader<'a> {
    rest: &'a [u8],
}

impl<'a> Reader<'a> {
    fn take(&mut self, count: usize) -> (result: Result<&'a [u8], TpmKeyError>)
        ensures
            match result {
                Ok(head) => count <= old(self).rest@.len() && head@ == old(self).rest@.take(
                    count as int,
                ) && final(self).rest@ == old(self).rest@.skip(count as int),
                Err(error) => count > old(self).rest@.len() && error == TpmKeyError::Truncated,
            },
    {
        if self.rest.len() < count {
            return Err(TpmKeyError::Truncated);
        }
        let head = slice_subrange(self.rest, 0, count);
        let tail = slice_subrange(self.rest, count, self.rest.len());
        assert(head@ =~= self.rest@.take(count as int));
        assert(tail@ =~= self.rest@.skip(count as int));
        self.rest = tail;
        Ok(head)
    }

    fn skip(&mut self, count: usize) -> (result: Result<(), TpmKeyError>)
        ensures
            match result {
                Ok(_) => count <= old(self).rest@.len() && final(self).rest@
                    == old(self).rest@.skip(count as int),
                Err(error) => count > old(self).rest@.len() && error == TpmKeyError::Truncated,
            },
    {
        match self.take(count) {
            Ok(_) => Ok(()),
            Err(error) => Err(error),
        }
    }

    fn u16(&mut self) -> (result: Result<u16, TpmKeyError>)
        ensures
            match result {
                Ok(value) => 2 <= old(self).rest@.len() && value == u16_at(old(self).rest@, 0)
                    && final(self).rest@ == old(self).rest@.skip(2),
                Err(error) => 2 > old(self).rest@.len() && error == TpmKeyError::Truncated,
            },
    {
        match self.take(2) {
            Ok(bytes) => {
                proof {
                    reveal_with_fuel(be_value, 3);
                    assert(bytes@ =~= old(self).rest@.subrange(0, 2));
                }
                Ok(bytes[0] as u16 * 256 + bytes[1] as u16)
            },
            Err(error) => Err(error),
        }
    }

    fn u32(&mut self) -> (result: Result<u32, TpmKeyError>)
        ensures
            match result {
                Ok(value) => 4 <= old(self).rest@.len() && value == u32_at(old(self).rest@, 0)
                    && final(self).rest@ == old(self).rest@.skip(4),
                Err(error) => 4 > old(self).rest@.len() && error == TpmKeyError::Truncated,
            },
    {
        match self.take(4) {
            Ok(bytes) => {
                proof {
                    reveal_with_fuel(be_value, 5);
                    assert(bytes@ =~= old(self).rest@.subrange(0, 4));
                }
                Ok(
                    bytes[0] as u32 * 0x100_0000 + bytes[1] as u32 * 0x1_0000 + bytes[2] as u32
                        * 0x100 + bytes[3] as u32,
                )
            },
            Err(error) => Err(error),
        }
    }
}

/// The pubkey field of `TPMKey ::= SEQUENCE { type OID, emptyAuth [0] OPTIONAL, policy [1]
/// OPTIONAL, secret [2] OPTIONAL, authPolicy [3] OPTIONAL, description [4] OPTIONAL,
/// rsaParent [5] OPTIONAL, parent INTEGER, pubkey OCTET STRING, privkey OCTET STRING }`:
/// the first OCTET STRING at the top level.
pub fn tpm2b_public(key: &[u8]) -> (result: Result<&[u8], TpmKeyError>)
    ensures
        match result {
            Ok(area) => public_area(key@) == Ok::<Seq<u8>, TpmKeyError>(area@),
            Err(error) => public_area(key@) == Err::<Seq<u8>, TpmKeyError>(error),
        },
{
    let sequence = match expect(key, 0x30) {
        Ok(sequence) => sequence,
        Err(error) => {
            return Err(TpmKeyError::NotSequence(error));
        },
    };
    let mut rest: &[u8] = sequence.contents;
    while rest.len() > 0
        invariant
            public_area(key@) == first_octet_string(rest@),
        decreases rest@.len(),
    {
        let field = match element(rest) {
            Ok(field) => field,
            Err(error) => {
                return Err(TpmKeyError::Field(error));
            },
        };
        if field.tag == 0x04 {
            return Ok(field.contents);
        }
        let ghost before = rest@;
        rest = slice_subrange(rest, field.len, rest.len());
        assert(rest@ =~= before.skip(field@.len as int));
    }
    Err(TpmKeyError::NoPublicArea)
}

/// The modulus and exponent in a `TPM2B_PUBLIC` of an RSA key.
pub fn parse_rsa_public(area: &[u8]) -> (result: Result<(Vec<u8>, u32), TpmKeyError>)
    ensures
        match result {
            Ok(key) => rsa_public(area@) == Ok::<(Seq<u8>, nat), TpmKeyError>(
                (key.0@, key.1 as nat),
            ),
            Err(error) => rsa_public(area@) == Err::<(Seq<u8>, nat), TpmKeyError>(error),
        },
{
    let mut reader = Reader { rest: area };
    let size: u16 = match reader.u16() {
        Ok(size) => size,
        Err(error) => {
            return Err(error);
        },
    };
    if size as usize != reader.rest.len() {
        return Err(TpmKeyError::Size);
    }
    let key_type: u16 = match reader.u16() {
        Ok(key_type) => key_type,
        Err(error) => {
            return Err(error);
        },
    };
    assert(area@.skip(2).subrange(0, 2) =~= area@.subrange(2, 4));
    if key_type != TPM_ALG_RSA {
        return Err(TpmKeyError::NotRsa);
    }
    assert(reader.rest@ =~= area@.skip(4));
    // nameAlg
    if let Err(error) = reader.skip(2) {
        return Err(error);
    }
    // objectAttributes
    if let Err(error) = reader.skip(4) {
        return Err(error);
    }
    assert(reader.rest@ =~= area@.skip(10));
    let policy: u16 = match reader.u16() {
        Ok(policy) => policy,
        Err(error) => {
            return Err(error);
        },
    };
    assert(area@.skip(10).subrange(0, 2) =~= area@.subrange(10, 12));
    assert(reader.rest@ =~= area@.skip(12));
    // authPolicy
    if let Err(error) = reader.skip(policy as usize) {
        return Err(error);
    }
    assert(reader.rest@ =~= area@.skip(12 + policy as int));
    parse_rsa_parameters(area, reader)
}

/// The modulus and exponent from the `TPMS_RSA_PARMS` on: symmetric (alg[, keyBits, mode]), scheme
/// (alg[, hash]), keyBits, exponent.
fn parse_rsa_parameters<'a>(area: &[u8], reader: Reader<'a>) -> (result: Result<
    (Vec<u8>, u32),
    TpmKeyError,
>)
    requires
        reader.rest@.len() <= area@.len(),
        reader.rest@ == area@.skip(area@.len() - reader.rest@.len()),
    ensures
        match result {
            Ok(key) => rsa_parameters_at(area@, area@.len() - reader.rest@.len()) == Ok::<
                (Seq<u8>, nat),
                TpmKeyError,
            >((key.0@, key.1 as nat)),
            Err(error) => rsa_parameters_at(area@, area@.len() - reader.rest@.len()) == Err::<
                (Seq<u8>, nat),
                TpmKeyError,
            >(error),
        },
{
    let ghost offset = area@.len() - reader.rest@.len();
    let mut reader = reader;
    let symmetric: u16 = match reader.u16() {
        Ok(symmetric) => symmetric,
        Err(error) => {
            return Err(error);
        },
    };
    assert(area@.skip(offset).subrange(0, 2) =~= area@.subrange(offset, offset + 2));
    if symmetric != TPM_ALG_NULL {
        if let Err(error) = reader.skip(4) {
            return Err(error);
        }
    }
    let ghost scheme_at = offset + symmetric_size(symmetric as nat);
    assert(reader.rest@ =~= area@.skip(scheme_at));
    let scheme: u16 = match reader.u16() {
        Ok(scheme) => scheme,
        Err(error) => {
            return Err(error);
        },
    };
    assert(area@.skip(scheme_at).subrange(0, 2) =~= area@.subrange(scheme_at, scheme_at + 2));
    if scheme != TPM_ALG_NULL {
        if let Err(error) = reader.skip(2) {
            return Err(error);
        }
    }
    let ghost key_at = scheme_at + scheme_size(scheme as nat);
    assert(reader.rest@ =~= area@.skip(key_at));
    // keyBits
    if let Err(error) = reader.skip(2) {
        return Err(error);
    }
    let given: u32 = match reader.u32() {
        Ok(exponent) => exponent,
        Err(error) => {
            return Err(error);
        },
    };
    assert(area@.skip(key_at).skip(2).subrange(0, 4) =~= area@.subrange(key_at + 2, key_at + 6));
    let exponent: u32 = if given == 0 {
        65537
    } else {
        given
    };
    assert(reader.rest@ =~= area@.skip(key_at + 6));
    let length: u16 = match reader.u16() {
        Ok(length) => length,
        Err(error) => {
            return Err(error);
        },
    };
    assert(area@.skip(key_at + 6).subrange(0, 2) =~= area@.subrange(key_at + 6, key_at + 8));
    assert(reader.rest@ =~= area@.skip(key_at + 8));
    let modulus = match reader.take(length as usize) {
        Ok(modulus) => modulus,
        Err(error) => {
            return Err(error);
        },
    };
    assert(modulus@ =~= area@.subrange(key_at + 8, key_at + 8 + length));
    Ok((to_vec(modulus), exponent))
}

/// The RSA public key of a TSS2 key file, as (modulus, exponent). Reads the `TPM2B_PUBLIC`
/// stored in the clear in the file, so it works for a key no approval covers yet.
pub fn rsa_public_key(key_file_pem: &str) -> (result: Result<(Vec<u8>, u32), TpmKeyError>)
    ensures
        match result {
            Ok(key) => key_file_public(key_file_pem@) == Ok::<(Seq<u8>, nat), TpmKeyError>(
                (key.0@, key.1 as nat),
            ),
            Err(error) => key_file_public(key_file_pem@) == Err::<(Seq<u8>, nat), TpmKeyError>(
                error,
            ),
        },
{
    let key = match pem_decode(key_file_pem, "TSS2 PRIVATE KEY") {
        Ok(key) => key,
        Err(error) => {
            return Err(TpmKeyError::Pem(error));
        },
    };
    match tpm2b_public(key.as_slice()) {
        Ok(area) => parse_rsa_public(area),
        Err(error) => Err(error),
    }
}

/// What a `TPM2B_PUBLIC` of an RSA key holds behind its size.
pub open spec fn rsa_area_body(
    name_algorithm: u16,
    attributes: u32,
    policy: Seq<u8>,
    symmetric: Seq<u8>,
    scheme: Seq<u8>,
    bits: u16,
    exponent: u32,
    modulus: Seq<u8>,
) -> Seq<u8> {
    be_bytes(TPM_ALG_RSA as nat, 2) + be_bytes(name_algorithm as nat, 2) + be_bytes(
        attributes as nat,
        4,
    ) + be_bytes(policy.len(), 2) + policy + symmetric + scheme + be_bytes(bits as nat, 2)
        + be_bytes(exponent as nat, 4) + be_bytes(modulus.len(), 2) + modulus
}

/// The modulus and the exponent are read from any public area of an RSA key, whatever its policy,
/// symmetric algorithm and scheme are.
pub proof fn law_rsa_area_reads_back(
    name_algorithm: u16,
    attributes: u32,
    policy: Seq<u8>,
    symmetric: Seq<u8>,
    scheme: Seq<u8>,
    bits: u16,
    exponent: u32,
    modulus: Seq<u8>,
)
    requires
        symmetric.len() == symmetric_size(u16_at(symmetric, 0)),
        scheme.len() == scheme_size(u16_at(scheme, 0)),
        rsa_area_body(
            name_algorithm,
            attributes,
            policy,
            symmetric,
            scheme,
            bits,
            exponent,
            modulus,
        ).len() <= u16::MAX,
    ensures
        ({
            let body = rsa_area_body(
                name_algorithm,
                attributes,
                policy,
                symmetric,
                scheme,
                bits,
                exponent,
                modulus,
            );
            rsa_public(be_bytes(body.len(), 2) + body) == Ok::<(Seq<u8>, nat), TpmKeyError>(
                (modulus, exponent_or_default(exponent as nat)),
            )
        }),
{
    let body = rsa_area_body(
        name_algorithm,
        attributes,
        policy,
        symmetric,
        scheme,
        bits,
        exponent,
        modulus,
    );
    let area = be_bytes(body.len(), 2) + body;
    lemma_widths(body.len(), 2);
    lemma_widths(TPM_ALG_RSA as nat, 2);
    lemma_widths(name_algorithm as nat, 2);
    lemma_widths(attributes as nat, 4);
    lemma_widths(policy.len(), 2);
    lemma_widths(bits as nat, 2);
    lemma_widths(exponent as nat, 4);
    lemma_widths(modulus.len(), 2);
    assert(byte_range(2) == 0x1_0000 && byte_range(4) == 0x1_0000_0000) by {
        reveal_with_fuel(byte_range, 5);
    }
    law_be_round_trip(body.len(), 2);
    law_be_round_trip(TPM_ALG_RSA as nat, 2);
    law_be_round_trip(policy.len(), 2);
    law_be_round_trip(exponent as nat, 4);
    law_be_round_trip(modulus.len(), 2);
    assert(area.subrange(0, 2) =~= be_bytes(body.len(), 2));
    assert(area.subrange(2, 4) =~= be_bytes(TPM_ALG_RSA as nat, 2));
    assert(area.subrange(10, 12) =~= be_bytes(policy.len(), 2));
    let parameters = 12 + policy.len() as int;
    assert(area.subrange(parameters, parameters + 2) =~= symmetric.subrange(0, 2));
    let scheme_at = parameters + symmetric.len();
    assert(area.subrange(scheme_at, scheme_at + 2) =~= scheme.subrange(0, 2));
    let key = scheme_at + scheme.len();
    assert(area.subrange(key + 2, key + 6) =~= be_bytes(exponent as nat, 4));
    assert(area.subrange(key + 6, key + 8) =~= be_bytes(modulus.len(), 2));
    assert(area.subrange(key + 8, key + 8 + modulus.len()) =~= modulus);
}

/// DER elements one after the other.
pub open spec fn elements(fields: Seq<(u8, Seq<u8>)>) -> Seq<u8>
    decreases fields.len(),
{
    if fields.len() == 0 {
        Seq::empty()
    } else {
        encoded(fields.first().0, fields.first().1) + elements(fields.drop_first())
    }
}

/// Fields that are no OCTET STRING are passed over.
proof fn lemma_fields_are_passed(fields: Seq<(u8, Seq<u8>)>, area: Seq<u8>, rest: Seq<u8>)
    requires
        forall|i: int|
            0 <= i < fields.len() ==> (#[trigger] fields[i]).0 != 0x04 && fields[i].1.len()
                <= u32::MAX,
        area.len() <= u32::MAX,
    ensures
        first_octet_string(elements(fields) + (encoded(0x04, area) + rest)) == Ok::<
            Seq<u8>,
            TpmKeyError,
        >(area),
    decreases fields.len(),
{
    let tail = encoded(0x04, area) + rest;
    let whole = elements(fields) + tail;
    if fields.len() == 0 {
        assert(whole =~= tail);
        law_element_round_trip(0x04, area, rest);
    } else {
        let first = fields.first();
        let behind = fields.drop_first();
        assert(first == fields[0]);
        assert forall|i: int| 0 <= i < behind.len() implies (#[trigger] behind[i]).0 != 0x04
            && behind[i].1.len() <= u32::MAX by {
            assert(behind[i] == fields[i + 1]);
        }
        lemma_fields_are_passed(behind, area, rest);
        law_element_round_trip(first.0, first.1, elements(behind) + tail);
        assert(whole =~= encoded(first.0, first.1) + (elements(behind) + tail));
        assert(whole.skip(encoded(first.0, first.1).len() as int) =~= elements(behind) + tail);
    }
}

/// The public key is read from the file of any key: the first OCTET STRING among the fields of the
/// key is its public area, whatever comes before and behind it.
pub proof fn law_key_file_reads_back(
    before: Seq<(u8, Seq<u8>)>,
    area: Seq<u8>,
    behind: Seq<u8>,
)
    requires
        forall|i: int|
            0 <= i < before.len() ==> (#[trigger] before[i]).0 != 0x04 && before[i].1.len()
                <= u32::MAX,
        area.len() <= u32::MAX,
        (elements(before) + (encoded(0x04, area) + behind)).len() <= u32::MAX,
    ensures
        ({
            let key = encoded(0x30, elements(before) + (encoded(0x04, area) + behind));
            key_file_public(pem_block("TSS2 PRIVATE KEY"@, key)) == rsa_public(area)
        }),
{
    let contents = elements(before) + (encoded(0x04, area) + behind);
    let key = encoded(0x30, contents);
    law_pem_round_trip("TSS2 PRIVATE KEY"@, key);
    law_element_round_trip(0x30, contents, Seq::empty());
    assert(key + Seq::<u8>::empty() =~= key);
    lemma_fields_are_passed(before, area, behind);
}

/// The policy file of two runs of commands is that of the first, then that of the second.
pub proof fn law_policy_text_concat(first: Seq<Seq<u8>>, second: Seq<Seq<u8>>)
    ensures
        policy_text(first + second) == policy_text(first) + policy_text(second),
    decreases second.len(),
{
    if second.len() == 0 {
        assert(first + second =~= first);
        assert(policy_text(first) + policy_text(second) =~= policy_text(first));
    } else {
        assert((first + second).drop_last() =~= first + second.drop_last());
        law_policy_text_concat(first, second.drop_last());
        assert(policy_text(first + second) =~= policy_text(first) + policy_text(second));
    }
}

/// The policy file of a single command is its hexadecimal form on a line. That of none is empty.
pub proof fn law_policy_text_of_one(command: Seq<u8>)
    ensures
        policy_text(seq![command]) == hex_text(command) + seq!['\n'],
        policy_text(Seq::empty()).len() == 0,
{
    assert(seq![command].drop_last() =~= Seq::<Seq<u8>>::empty());
    assert(policy_text(Seq::<Seq<u8>>::empty()) =~= Seq::empty());
    assert(policy_text(seq![command]) =~= hex_text(command) + seq!['\n']);
}

/// The command for PCRs, byte by byte: its code, one selection of the SHA-256 bank with three bytes,
/// in which the bit of each PCR is set if and only if a value is given for it, and the digest.
pub proof fn law_policy_pcr_layout(pcrs: Seq<(u8, Seq<u8>)>, digest: Seq<u8>, index: int)
    requires
        0 <= index < 24,
    ensures
        ({
            let command = policy_pcr(pcrs, digest);
            let byte = command[11 + index / 8];
            &&& command.len() == 14 + digest.len()
            &&& command.take(11) == seq![0u8, 0, 0x01, 0x7f, 0, 0, 0, 1, 0, 0x0b, 3]
            &&& command.skip(14) == digest
            &&& (bit_of_byte(byte, index % 8) <==> exists|i: int|
                0 <= i < pcrs.len() && (#[trigger] pcrs[i]).0 == index)
        }),
{
    let command = policy_pcr(pcrs, digest);
    let head = be_bytes(TPM_CC_POLICY_PCR as nat, 4) + be_bytes(1, 4) + be_bytes(
        TPM_ALG_SHA256 as nat,
        2,
    );
    assert(head =~= seq![0u8, 0, 0x01, 0x7f, 0, 0, 0, 1, 0, 0x0b]) by {
        reveal_with_fuel(be_bytes, 5);
    }
    assert(command.take(11) =~= seq![0u8, 0, 0x01, 0x7f, 0, 0, 0, 1, 0, 0x0b, 3]);
    assert(command.skip(14) =~= digest);
    assert(command[11] == selection_byte(pcrs, 0));
    assert(command[12] == selection_byte(pcrs, 8));
    assert(command[13] == selection_byte(pcrs, 16));
    lemma_selection_bit(pcrs, index / 8 * 8, index % 8);
    assert(index / 8 == 0 || index / 8 == 1 || index / 8 == 2);
    assert(is_selected(pcrs, index) <==> exists|i: int|
        0 <= i < pcrs.len() && (#[trigger] pcrs[i]).0 == index);
}

/// Whether a bit of a byte is set, counted from the least significant.
pub open spec fn bit_of_byte(byte: u8, bit: int) -> bool {
    if bit == 0 {
        byte % 2 == 1
    } else if bit == 1 {
        byte / 2 % 2 == 1
    } else if bit == 2 {
        byte / 4 % 2 == 1
    } else if bit == 3 {
        byte / 8 % 2 == 1
    } else if bit == 4 {
        byte / 16 % 2 == 1
    } else if bit == 5 {
        byte / 32 % 2 == 1
    } else if bit == 6 {
        byte / 64 % 2 == 1
    } else {
        byte / 128 % 2 == 1
    }
}

#[verifier::spinoff_prover]
#[verifier::rlimit(40)]
proof fn lemma_selection_bit(pcrs: Seq<(u8, Seq<u8>)>, first: int, bit: int)
    requires
        0 <= bit < 8,
    ensures
        bit_of_byte(selection_byte(pcrs, first), bit) <==> is_selected(pcrs, first + bit),
{
    let b0 = selection_bit(pcrs, first, 1);
    let b1 = selection_bit(pcrs, first + 1, 2);
    let b2 = selection_bit(pcrs, first + 2, 4);
    let b3 = selection_bit(pcrs, first + 3, 8);
    let b4 = selection_bit(pcrs, first + 4, 16);
    let b5 = selection_bit(pcrs, first + 5, 32);
    let b6 = selection_bit(pcrs, first + 6, 64);
    let b7 = selection_bit(pcrs, first + 7, 128);
    let sum = b0 + b1 + b2 + b3 + b4 + b5 + b6 + b7;
    assert(sum < 256);
    assert(selection_byte(pcrs, first) == sum);
    assert(bit == 0 || bit == 1 || bit == 2 || bit == 3 || bit == 4 || bit == 5 || bit == 6 || bit
        == 7);
}

/// A policy on PCRs is on the digest of their values.
pub proof fn law_pcr_policy_digest(pcrs: Seq<(u8, Seq<u8>)>)
    ensures
        pcr_policy(pcrs).skip(14) == sha256_digest(values_below(pcrs, 24)),
        pcr_policy(pcrs).take(14) == policy_pcr(pcrs, Seq::empty()),
{
    let digest = sha256_digest(values_below(pcrs, 24));
    law_policy_pcr_layout(pcrs, digest, 0);
    law_policy_pcr_layout(pcrs, Seq::empty(), 0);
    assert(policy_pcr(pcrs, digest).take(14) =~= policy_pcr(pcrs, Seq::empty()));
}

/// The values of PCRs in a row.
pub open spec fn values_in_a_row(pcrs: Seq<(u8, Seq<u8>)>) -> Seq<u8>
    decreases pcrs.len(),
{
    if pcrs.len() == 0 {
        Seq::empty()
    } else {
        values_in_a_row(pcrs.drop_last()) + pcrs.last().1
    }
}

/// PCRs that are given in order are hashed as they are given.
pub proof fn law_ordered_values(pcrs: Seq<(u8, Seq<u8>)>, end: int)
    requires
        forall|i: int, j: int|
            0 <= i <= j < pcrs.len() ==> (#[trigger] pcrs[i]).0 <= (#[trigger] pcrs[j]).0,
        pcrs.len() > 0 ==> pcrs.last().0 < end,
        end >= 0,
    ensures
        values_below(pcrs, end) == values_in_a_row(pcrs),
    decreases pcrs.len(),
{
    if pcrs.len() == 0 {
        lemma_no_values(pcrs, end);
        assert(values_below(pcrs, end) =~= values_in_a_row(pcrs));
    } else {
        let front = pcrs.drop_last();
        let last = pcrs.last();
        assert forall|i: int, j: int| 0 <= i <= j < front.len() implies (#[trigger] front[i]).0 <= (
        #[trigger] front[j]).0 by {
            assert(pcrs[i].0 <= pcrs[j].0);
        }
        assert forall|i: int| 0 <= i < front.len() implies (#[trigger] front[i]).0 <= last.0 by {
            assert(pcrs[i].0 <= pcrs[pcrs.len() - 1].0);
        }
        law_ordered_values(front, last.0 + 1);
        lemma_last_value(pcrs, end);
        lemma_values_end(front, last.0 + 1, end);
    }
}

/// A last PCR that none comes behind adds its value at the end.
proof fn lemma_last_value(pcrs: Seq<(u8, Seq<u8>)>, end: int)
    requires
        pcrs.len() > 0,
        pcrs.last().0 < end,
        forall|i: int| 0 <= i < pcrs.len() - 1 ==> (#[trigger] pcrs[i]).0 <= pcrs.last().0,
    ensures
        values_below(pcrs, end) == values_below(pcrs.drop_last(), end) + pcrs.last().1,
    decreases end,
{
    let front = pcrs.drop_last();
    let last = pcrs.last();
    let index = end - 1;
    if last.0 < index {
        lemma_last_value(pcrs, end - 1);
        lemma_unused_index(front, index);
        assert(values_below(pcrs, end) =~= values_below(front, end) + last.1);
    } else {
        lemma_values_before(pcrs, index);
        assert(values_below(pcrs, end) =~= values_below(front, end) + last.1);
    }
}

/// The values below an index do not depend on a last PCR at or behind it.
proof fn lemma_values_before(pcrs: Seq<(u8, Seq<u8>)>, end: int)
    requires
        pcrs.len() > 0,
        pcrs.last().0 >= end,
    ensures
        values_below(pcrs, end) == values_below(pcrs.drop_last(), end),
    decreases end,
{
    if end > 0 {
        lemma_values_before(pcrs, end - 1);
    }
}

/// No values are given for an index behind all that are given.
proof fn lemma_unused_index(pcrs: Seq<(u8, Seq<u8>)>, index: int)
    requires
        forall|i: int| 0 <= i < pcrs.len() ==> (#[trigger] pcrs[i]).0 < index,
    ensures
        values_of(pcrs, index) == Seq::<u8>::empty(),
    decreases pcrs.len(),
{
    if pcrs.len() > 0 {
        let front = pcrs.drop_last();
        assert forall|i: int| 0 <= i < front.len() implies (#[trigger] front[i]).0 < index by {
            assert(front[i] == pcrs[i]);
        }
        assert(pcrs[pcrs.len() - 1].0 < index);
        lemma_unused_index(front, index);
    }
}

/// Indices behind all that are given add no values.
proof fn lemma_values_end(pcrs: Seq<(u8, Seq<u8>)>, least: int, end: int)
    requires
        0 <= least <= end,
        forall|i: int| 0 <= i < pcrs.len() ==> (#[trigger] pcrs[i]).0 < least,
    ensures
        values_below(pcrs, end) == values_below(pcrs, least),
    decreases end,
{
    if least < end {
        lemma_values_end(pcrs, least, end - 1);
        lemma_unused_index(pcrs, end - 1);
        assert(values_below(pcrs, end) =~= values_below(pcrs, least));
    }
}

/// Two neighbours that are different PCRs can change places: what is hashed stays the same, and so
/// does the selection.
pub proof fn law_neighbours_swap(
    before: Seq<(u8, Seq<u8>)>,
    a: (u8, Seq<u8>),
    b: (u8, Seq<u8>),
    behind: Seq<(u8, Seq<u8>)>,
)
    requires
        a.0 != b.0,
    ensures
        pcr_policy(before + seq![a, b] + behind) == pcr_policy(before + seq![b, a] + behind),
{
    let one = before + seq![a, b] + behind;
    let two = before + seq![b, a] + behind;
    lemma_swapped_values(before, a, b, behind, 24);
    assert forall|index: int| is_selected(one, index) implies is_selected(two, index) by {
        lemma_swapped_selection(before, a, b, behind, index);
    }
    assert forall|index: int| is_selected(two, index) implies is_selected(one, index) by {
        lemma_swapped_selection(before, b, a, behind, index);
    }
    lemma_same_selection(one, two, 0);
    lemma_same_selection(one, two, 8);
    lemma_same_selection(one, two, 16);
}

proof fn lemma_swapped_selection(
    before: Seq<(u8, Seq<u8>)>,
    a: (u8, Seq<u8>),
    b: (u8, Seq<u8>),
    behind: Seq<(u8, Seq<u8>)>,
    index: int,
)
    requires
        is_selected(before + seq![a, b] + behind, index),
    ensures
        is_selected(before + seq![b, a] + behind, index),
{
    let one = before + seq![a, b] + behind;
    let two = before + seq![b, a] + behind;
    let n = before.len() as int;
    let i = choose|i: int| 0 <= i < one.len() && (#[trigger] one[i]).0 == index;
    if i == n {
        assert(two[n + 1].0 == index);
    } else if i == n + 1 {
        assert(two[n].0 == index);
    } else {
        assert(two[i].0 == index);
    }
}

proof fn lemma_values_concat(
    first: Seq<(u8, Seq<u8>)>,
    second: Seq<(u8, Seq<u8>)>,
    index: int,
)
    ensures
        values_of(first + second, index) == values_of(first, index) + values_of(second, index),
    decreases second.len(),
{
    if second.len() == 0 {
        assert(first + second =~= first);
        assert(values_of(first, index) + values_of(second, index) =~= values_of(first, index));
    } else {
        assert((first + second).drop_last() =~= first + second.drop_last());
        lemma_values_concat(first, second.drop_last(), index);
        assert(values_of(first + second, index) =~= values_of(first, index) + values_of(
            second,
            index,
        ));
    }
}

proof fn lemma_swapped_values(
    before: Seq<(u8, Seq<u8>)>,
    a: (u8, Seq<u8>),
    b: (u8, Seq<u8>),
    behind: Seq<(u8, Seq<u8>)>,
    end: int,
)
    requires
        a.0 != b.0,
    ensures
        values_below(before + seq![a, b] + behind, end) == values_below(
            before + seq![b, a] + behind,
            end,
        ),
    decreases end,
{
    if end > 0 {
        let index = end - 1;
        lemma_swapped_values(before, a, b, behind, index);
        lemma_values_concat(before + seq![a, b], behind, index);
        lemma_values_concat(before, seq![a, b], index);
        lemma_values_concat(before + seq![b, a], behind, index);
        lemma_values_concat(before, seq![b, a], index);
        lemma_two_values(a, b, index);
        lemma_two_values(b, a, index);
        assert(values_of(seq![a, b], index) =~= values_of(seq![b, a], index));
    }
}

proof fn lemma_two_values(a: (u8, Seq<u8>), b: (u8, Seq<u8>), index: int)
    requires
        a.0 != b.0,
    ensures
        values_of(seq![a, b], index) == if a.0 == index {
            a.1
        } else if b.0 == index {
            b.1
        } else {
            Seq::empty()
        },
{
    assert(seq![a, b].drop_last() =~= seq![a]);
    assert(seq![a].drop_last() =~= Seq::<(u8, Seq<u8>)>::empty());
    assert(values_of(Seq::<(u8, Seq<u8>)>::empty(), index) =~= Seq::empty());
    assert(values_of(seq![a], index) =~= if a.0 == index {
        a.1
    } else {
        Seq::empty()
    });
    assert(values_of(seq![a, b], index) =~= if a.0 == index {
        a.1
    } else if b.0 == index {
        b.1
    } else {
        Seq::empty()
    });
}

/// The command for a clock limit, byte by byte: its code, the limit most significant byte first,
/// where the clock is in the time information, and that it must be at most the limit.
pub proof fn law_policy_counter_timer_layout(clock: u64)
    ensures
        ({
            let command = policy_counter_timer(clock);
            &&& command.len() == 16
            &&& command.take(4) == seq![0u8, 0, 0x01, 0x6d]
            &&& be_value(command.subrange(4, 12)) == clock
            &&& command.skip(12) == seq![0u8, 8, 0, 9]
        }),
{
    let command = policy_counter_timer(clock);
    let code = be_bytes(TPM_CC_POLICY_COUNTER_TIMER as nat, 4);
    let tail = be_bytes(CLOCK_OFFSET as nat, 2) + be_bytes(TPM_EO_UNSIGNED_LE as nat, 2);
    assert(code =~= seq![0u8, 0, 0x01, 0x6d] && tail =~= seq![0u8, 8, 0, 9]) by {
        reveal_with_fuel(be_bytes, 5);
    }
    law_byte_ranges();
    law_be_round_trip(clock as nat, 8);
    assert(command.take(4) =~= code);
    assert(command.subrange(4, 12) =~= be_bytes(clock as nat, 8));
    assert(command.skip(12) =~= tail);
}

/// The commands that create and approve depend on their inputs in one place each.
pub proof fn law_tool_commands(
    key_file: Seq<u8>,
    approver: Seq<u8>,
    name: Seq<char>,
    policy: Seq<u8>,
    signer: Seq<char>,
    other_key_file: Seq<u8>,
    other_approver: Seq<u8>,
    other_name: Seq<char>,
    other_policy: Seq<u8>,
    other_signer: Seq<char>,
)
    ensures
        ({
            let a = creation(key_file, approver);
            let b = creation(other_key_file, other_approver);
            &&& a.program == b.program && a.environment is None && b.environment is None
            &&& a.arguments.len() == 6 && b.arguments.len() == 6
            &&& a.arguments[3] == encode_utf8("--signed-policy"@) && a.arguments[4] == approver
            &&& a.arguments[5] == key_file
            &&& forall|i: int| 0 <= i < 4 ==> a.arguments[i] == b.arguments[i]
        }),
        ({
            let a = approval(key_file, name, policy, signer);
            let b = approval(other_key_file, other_name, other_policy, other_signer);
            &&& a.program == b.program && a.environment is None && b.environment is None
            &&& a.arguments.len() == 7 && b.arguments.len() == 7
            &&& a.arguments[0] == b.arguments[0]
            &&& a.arguments[1] == encode_utf8("-n"@) && a.arguments[2] == encode_utf8(name)
            &&& a.arguments[3] == encode_utf8("-c"@) && a.arguments[4] == policy
            &&& a.arguments[5] == key_file
            &&& a.arguments[6] == encode_utf8(signer)
        }),
{
}

/// Whether bytes are an algorithm with its details: two bytes for none (0x0010), or `size` bytes for
/// another.
pub open spec fn is_algorithm(bytes: Seq<u8>, size: nat) -> bool {
    bytes == seq![0u8, 0x10] || (bytes.len() == size && bytes.take(2) != seq![0u8, 0x10])
}

/// The public area of an RSA key behind its size, field by field.
#[verifier::opaque]
pub open spec fn rsa_area_fields(
    name_algorithm: Seq<u8>,
    attributes: Seq<u8>,
    policy: Seq<u8>,
    symmetric: Seq<u8>,
    scheme: Seq<u8>,
    bits: Seq<u8>,
    exponent: Seq<u8>,
    modulus: Seq<u8>,
) -> Seq<u8> {
    seq![0u8, 1] + name_algorithm + attributes + be_bytes(policy.len(), 2) + policy + symmetric
        + scheme + bits + exponent + be_bytes(modulus.len(), 2) + modulus
}

proof fn lemma_algorithm(bytes: Seq<u8>)
    requires
        bytes.len() >= 2,
    ensures
        u16_at(bytes, 0) == TPM_ALG_NULL <==> bytes.take(2) == seq![0u8, 0x10],
{
    let two = bytes.subrange(0, 2);
    law_place_values(two);
    assert(two =~= bytes.take(2));
    assert(be_value(two) == 256 * two[0] + two[1]);
    if two[0] == 0 && two[1] == 0x10 {
        assert(two =~= seq![0u8, 0x10]);
    }
    if two =~= seq![0u8, 0x10] {
        assert(two[0] == 0 && two[1] == 0x10);
    }
}

/// Where the fields of a public area are.
proof fn lemma_rsa_area_fields(
    name_algorithm: Seq<u8>,
    attributes: Seq<u8>,
    policy: Seq<u8>,
    symmetric: Seq<u8>,
    scheme: Seq<u8>,
    bits: Seq<u8>,
    exponent: Seq<u8>,
    modulus: Seq<u8>,
    size: Seq<u8>,
    behind: Seq<u8>,
)
    requires
        size.len() == 2,
        name_algorithm.len() == 2,
        attributes.len() == 4,
        symmetric.len() >= 2,
        scheme.len() >= 2,
        bits.len() == 2,
        exponent.len() == 4,
        policy.len() <= u16::MAX,
        modulus.len() <= u16::MAX,
    ensures
        ({
            let body = rsa_area_fields(
                name_algorithm,
                attributes,
                policy,
                symmetric,
                scheme,
                bits,
                exponent,
                modulus,
            );
            let area = size + body + behind;
            let parameters = 12 + policy.len() as int;
            let scheme_at = parameters + symmetric.len();
            let key = scheme_at + scheme.len();
            &&& body.len() == key + 6 + modulus.len()
            &&& area.subrange(0, 2) == size
            &&& u16_at(area, 2) == 1
            &&& u16_at(area, 10) == policy.len()
            &&& area.subrange(parameters, parameters + 2) == symmetric.subrange(0, 2)
            &&& area.subrange(scheme_at, scheme_at + 2) == scheme.subrange(0, 2)
            &&& area.subrange(key + 2, key + 6) == exponent
            &&& u16_at(area, key + 6) == modulus.len()
            &&& area.subrange(key + 8, key + 8 + modulus.len()) == modulus
        }),
{
    reveal(rsa_area_fields);
    let body = rsa_area_fields(
        name_algorithm,
        attributes,
        policy,
        symmetric,
        scheme,
        bits,
        exponent,
        modulus,
    );
    let area = size + body + behind;
    law_byte_ranges();
    lemma_widths(policy.len(), 2);
    lemma_widths(modulus.len(), 2);
    law_be_round_trip(policy.len(), 2);
    law_be_round_trip(modulus.len(), 2);
    law_place_values(seq![0u8, 1]);
    let parameters = 12 + policy.len() as int;
    let scheme_at = parameters + symmetric.len();
    let key = scheme_at + scheme.len();
    assert(area.subrange(0, 2) =~= size);
    assert(area.subrange(2, 4) =~= seq![0u8, 1]);
    assert(area.subrange(10, 12) =~= be_bytes(policy.len(), 2));
    assert(area.subrange(parameters, parameters + 2) =~= symmetric.subrange(0, 2));
    assert(area.subrange(scheme_at, scheme_at + 2) =~= scheme.subrange(0, 2));
    assert(area.subrange(key + 2, key + 6) =~= exponent);
    assert(area.subrange(key + 6, key + 8) =~= be_bytes(modulus.len(), 2));
    assert(area.subrange(key + 8, key + 8 + modulus.len()) =~= modulus);
}

/// The modulus and the exponent are read from their places in a public area: behind the type, the
/// name algorithm, the attributes, the policy with its length, the symmetric algorithm (two bytes for
/// none, else six), the scheme (two bytes for none, else four) and the key bits. An exponent of zero
/// stands for 65537. What follows the modulus does not count.
#[verifier::rlimit(40)]
pub proof fn law_rsa_area_layout(
    name_algorithm: Seq<u8>,
    attributes: Seq<u8>,
    policy: Seq<u8>,
    symmetric: Seq<u8>,
    scheme: Seq<u8>,
    bits: Seq<u8>,
    exponent: Seq<u8>,
    modulus: Seq<u8>,
    behind: Seq<u8>,
    size: Seq<u8>,
)
    requires
        name_algorithm.len() == 2,
        attributes.len() == 4,
        policy.len() <= u16::MAX,
        is_algorithm(symmetric, 6),
        is_algorithm(scheme, 4),
        bits.len() == 2,
        exponent.len() == 4,
        modulus.len() <= u16::MAX,
        size.len() == 2,
        be_value(size) == (rsa_area_fields(
            name_algorithm,
            attributes,
            policy,
            symmetric,
            scheme,
            bits,
            exponent,
            modulus,
        ) + behind).len(),
    ensures
        ({
            let body = rsa_area_fields(
                name_algorithm,
                attributes,
                policy,
                symmetric,
                scheme,
                bits,
                exponent,
                modulus,
            );
            rsa_public(size + body + behind) == Ok::<(Seq<u8>, nat), TpmKeyError>(
                (
                    modulus,
                    if be_value(exponent) == 0 {
                        65537
                    } else {
                        be_value(exponent)
                    },
                ),
            )
        }),
{
    lemma_rsa_area_fields(
        name_algorithm,
        attributes,
        policy,
        symmetric,
        scheme,
        bits,
        exponent,
        modulus,
        size,
        behind,
    );
    lemma_algorithm(symmetric);
    lemma_algorithm(scheme);
    assert(seq![0u8, 0x10].take(2) =~= seq![0u8, 0x10]);
    let body = rsa_area_fields(
        name_algorithm,
        attributes,
        policy,
        symmetric,
        scheme,
        bits,
        exponent,
        modulus,
    );
    let area = size + body + behind;
    let parameters = 12 + policy.len() as int;
    let scheme_at = parameters + symmetric.len();
    let key = scheme_at + scheme.len();
    assert(u16_at(area, 0) == area.len() - 2);
    assert(symmetric_size(u16_at(area, parameters)) == symmetric.len());
    assert(scheme_size(u16_at(area, scheme_at)) == scheme.len());
    assert(rsa_parameters_at(area, parameters) == rsa_key_at(area, key));
}

/// A public area that ends before its modulus does is refused as truncated, wherever it ends.
#[verifier::rlimit(40)]
pub proof fn law_rsa_area_truncated(
    name_algorithm: Seq<u8>,
    attributes: Seq<u8>,
    policy: Seq<u8>,
    symmetric: Seq<u8>,
    scheme: Seq<u8>,
    bits: Seq<u8>,
    exponent: Seq<u8>,
    modulus: Seq<u8>,
    length: int,
    size: Seq<u8>,
)
    requires
        name_algorithm.len() == 2,
        attributes.len() == 4,
        policy.len() <= u16::MAX,
        is_algorithm(symmetric, 6),
        is_algorithm(scheme, 4),
        bits.len() == 2,
        exponent.len() == 4,
        modulus.len() <= u16::MAX,
        0 <= length < rsa_area_fields(
            name_algorithm,
            attributes,
            policy,
            symmetric,
            scheme,
            bits,
            exponent,
            modulus,
        ).len(),
        size.len() == 2,
        be_value(size) == length,
    ensures
        ({
            let body = rsa_area_fields(
                name_algorithm,
                attributes,
                policy,
                symmetric,
                scheme,
                bits,
                exponent,
                modulus,
            );
            rsa_public(size + body.take(length)) == Err::<(Seq<u8>, nat), TpmKeyError>(
                TpmKeyError::Truncated,
            )
        }),
{
    let body = rsa_area_fields(
        name_algorithm,
        attributes,
        policy,
        symmetric,
        scheme,
        bits,
        exponent,
        modulus,
    );
    lemma_rsa_area_fields(
        name_algorithm,
        attributes,
        policy,
        symmetric,
        scheme,
        bits,
        exponent,
        modulus,
        size,
        Seq::empty(),
    );
    lemma_algorithm(symmetric);
    lemma_algorithm(scheme);
    assert(seq![0u8, 0x10].take(2) =~= seq![0u8, 0x10]);
    let whole = size + body + Seq::<u8>::empty();
    let area = size + body.take(length);
    let end = area.len() as int;
    assert(area.subrange(0, 2) =~= size);
    let parameters = 12 + policy.len() as int;
    let scheme_at = parameters + symmetric.len();
    let key = scheme_at + scheme.len();
    assert(area =~= whole.take(end));
    if end >= 4 {
        assert(area.subrange(2, 4) =~= whole.subrange(2, 4));
    }
    if end >= 12 {
        assert(area.subrange(10, 12) =~= whole.subrange(10, 12));
    }
    if end >= parameters + 2 {
        assert(area.subrange(parameters, parameters + 2) =~= whole.subrange(
            parameters,
            parameters + 2,
        ));
    }
    if end >= scheme_at + 2 {
        assert(area.subrange(scheme_at, scheme_at + 2) =~= whole.subrange(
            scheme_at,
            scheme_at + 2,
        ));
    }
    if end >= key + 8 {
        assert(area.subrange(key + 6, key + 8) =~= whole.subrange(key + 6, key + 8));
    }
}

/// A public area is refused by its size if and only if the size in it is another, and as no RSA key if
/// and only if it has its size and another type.
pub proof fn law_rsa_area_refusals(area: Seq<u8>)
    ensures
        area.len() < 2 ==> rsa_public(area) == Err::<(Seq<u8>, nat), TpmKeyError>(
            TpmKeyError::Truncated,
        ),
        rsa_public(area) == Err::<(Seq<u8>, nat), TpmKeyError>(TpmKeyError::Size) <==> area.len()
            >= 2 && be_value(area.subrange(0, 2)) != area.len() - 2,
        rsa_public(area) == Err::<(Seq<u8>, nat), TpmKeyError>(TpmKeyError::NotRsa) <==> area.len()
            >= 4 && be_value(area.subrange(0, 2)) == area.len() - 2 && !(area[2] == 0 && area[3]
            == 1),
        rsa_public(area) is Err ==> rsa_public(area)->Err_0 == TpmKeyError::Truncated || rsa_public(
            area,
        )->Err_0 == TpmKeyError::Size || rsa_public(area)->Err_0 == TpmKeyError::NotRsa,
{
    if area.len() >= 4 {
        let kind = area.subrange(2, 4);
        law_place_values(kind);
        assert(be_value(kind) == 256 * kind[0] + kind[1]);
    }
}

proof fn lemma_fields_end(fields: Seq<(u8, Seq<u8>)>, rest: Seq<u8>)
    requires
        forall|i: int|
            0 <= i < fields.len() ==> (#[trigger] fields[i]).0 != 0x04 && fields[i].1.len()
                <= u32::MAX,
    ensures
        first_octet_string(elements(fields) + rest) == first_octet_string(rest),
    decreases fields.len(),
{
    let whole = elements(fields) + rest;
    if fields.len() == 0 {
        assert(whole =~= rest);
    } else {
        let first = fields.first();
        let behind = fields.drop_first();
        assert(first == fields[0]);
        assert forall|i: int| 0 <= i < behind.len() implies (#[trigger] behind[i]).0 != 0x04
            && behind[i].1.len() <= u32::MAX by {
            assert(behind[i] == fields[i + 1]);
        }
        lemma_fields_end(behind, rest);
        law_element_round_trip(first.0, first.1, elements(behind) + rest);
        assert(whole =~= encoded(first.0, first.1) + (elements(behind) + rest));
        assert(whole.skip(encoded(first.0, first.1).len() as int) =~= elements(behind) + rest);
    }
}

/// Why a key has no public area: it is no SEQUENCE, or none of its fields is an OCTET STRING, or a
/// field before the first OCTET STRING cannot be read.
pub proof fn law_public_area_refusals(fields: Seq<(u8, Seq<u8>)>, broken: Seq<u8>, key: Seq<u8>)
    requires
        forall|i: int|
            0 <= i < fields.len() ==> (#[trigger] fields[i]).0 != 0x04 && fields[i].1.len()
                <= u32::MAX,
        (elements(fields) + broken).len() <= u32::MAX,
        broken.len() > 0,
        element_at_start(broken) is Err,
        tagged_at_start(key, 0x30) is Err,
    ensures
        public_area(encoded(0x30, elements(fields))) == Err::<Seq<u8>, TpmKeyError>(
            TpmKeyError::NoPublicArea,
        ),
        public_area(encoded(0x30, elements(fields) + broken)) == Err::<Seq<u8>, TpmKeyError>(
            TpmKeyError::Field(element_at_start(broken)->Err_0),
        ),
        public_area(key) == Err::<Seq<u8>, TpmKeyError>(
            TpmKeyError::NotSequence(tagged_at_start(key, 0x30)->Err_0),
        ),
{
    let none = Seq::<u8>::empty();
    let all = elements(fields);
    lemma_fields_end(fields, broken);
    lemma_fields_end(fields, none);
    assert(all + none =~= all);
    law_element_round_trip(0x30, all, none);
    assert(encoded(0x30, all) + none =~= encoded(0x30, all));
    law_element_round_trip(0x30, all + broken, none);
    assert(encoded(0x30, all + broken) + none =~= encoded(0x30, all + broken));
}

/// The public key of a key file is that of the public area of the key in its block, and it is refused
/// for what the first of these is refused.
pub proof fn law_key_file(text: Seq<char>)
    ensures
        ({
            let block = pem_contents(encode_utf8(text), "TSS2 PRIVATE KEY"@);
            let area = public_area(block->Ok_0);
            let key = rsa_public(area->Ok_0);
            match key_file_public(text) {
                Ok(found) => block is Ok && area is Ok && key == Ok::<
                    (Seq<u8>, nat),
                    TpmKeyError,
                >(found),
                Err(error) => if block is Err {
                    error == TpmKeyError::Pem(block->Err_0)
                } else if area is Err {
                    error == area->Err_0
                } else {
                    key is Err && error == key->Err_0
                },
            }
        }),
{
}

} // verus!
