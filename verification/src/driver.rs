//! One-shot deploy-and-call verification driver.
//!
//! Given a deployment-code container and a proof record, the driver assembles
//! calldata from the record's public instances and proof bytes with the
//! authoritative encoder paired with the bytecode, deploys the bytecode in a
//! fresh embedded EVM, calls it with the calldata, and classifies the
//! outcome. Each invocation uses a fresh EVM context; nothing is carried over
//! between calls. Diagnostic logging is deliberately left to callers: nothing
//! here writes logs, and the classification alone carries the outcome.

use crate::container::DeploymentCode;
use halo2curves_axiom::bn256::Fr;
use vstd::prelude::*;

verus! {

/// Declares halo2curves_axiom::bn256::Fr, the scalar field element of the
/// proving curve; opaque here, carried through to the calldata encoder
/// untouched.
#[verifier::external_type_specification]
#[verifier::external_body]
pub struct ExFr(Fr);

/// Errors related to EVM verification.
#[derive(Clone, Copy, Debug, PartialEq, Eq, Structural)]
pub enum EvmVerificationError {
    /// The verifier ran to completion and reported the proof invalid.
    InvalidProof,
    /// The verifier contract raised a high-level execution fault.
    SolidityExecution,
    /// Lower-level EVM interpreter fault while running the bytecode.
    RawExecution,
    /// The verifier executed a revert without an invalid-proof classification.
    Reverted,
    /// Deployment of the bytecode as a contract failed.
    Deploy,
}

impl EvmVerificationError {
    /// The stable human-readable message of this failure reason.
    pub open spec fn spec_message(self) -> Seq<char> {
        match self {
            EvmVerificationError::InvalidProof => "Solidity verifier found the proof invalid"@,
            EvmVerificationError::SolidityExecution => "Execution of Solidity code failed"@,
            EvmVerificationError::RawExecution => "EVM execution of raw code failed"@,
            EvmVerificationError::Reverted => "evm verification reverted"@,
            EvmVerificationError::Deploy => "evm deployment failed"@,
        }
    }

    /// The stable human-readable message of this failure reason.
    pub fn message(&self) -> (r: &'static str)
        ensures
            r@ == self.spec_message(),
    {
        match self {
            EvmVerificationError::InvalidProof => "Solidity verifier found the proof invalid",
            EvmVerificationError::SolidityExecution => "Execution of Solidity code failed",
            EvmVerificationError::RawExecution => "EVM execution of raw code failed",
            EvmVerificationError::Reverted => "evm verification reverted",
            EvmVerificationError::Deploy => "evm deployment failed",
        }
    }
}

/// Proof record consumed by the driver: public inputs grouped by instance
/// column, and the opaque proof bytes. Both are read-only to the driver.
pub struct Snark {
    /// Public inputs, indexed first by instance column, then by row.
    pub instances: Vec<Vec<Fr>>,
    /// Opaque proof bytes.
    pub proof: Vec<u8>,
}

/// The instances as a sequence of columns of field elements.
pub open spec fn instances_view(instances: Seq<Vec<Fr>>) -> Seq<Seq<Fr>> {
    instances.map_values(|col: Vec<Fr>| col@)
}

/// Number of field elements over all instance columns.
pub open spec fn flat_count(instances: Seq<Seq<Fr>>) -> int
    decreases instances.len(),
{
    if instances.len() == 0 {
        0
    } else {
        instances[0].len() + flat_count(instances.drop_first())
    }
}

/// Size cap that the embedded EVM places on deployment (constructor) code:
/// its configuration rejects any create whose input exceeds this many bytes.
pub const MAX_DEPLOYMENT_CODE_LEN: usize = 49152;

/// The calldata that the authoritative encoder assembles from the given
/// public instances and proof bytes.
pub uninterp spec fn calldata_of(instances: Seq<Seq<Fr>>, proof: Seq<u8>) -> Seq<u8>;

/// The outcome of deploying the given bytecode in a fresh embedded EVM and
/// calling the installed contract with the given calldata: the gas used by
/// the call, or a description of the failure.
pub uninterp spec fn evm_outcome(code: Seq<u8>, calldata: Seq<u8>) -> Result<u64, Seq<char>>;

/// Relies on snark_verifier::loader::evm::encode_calldata: it concatenates
/// the 32-byte big-endian canonical form of each field element, column by
/// column and row by row, then the proof bytes; the result is a function of
/// the instances and the proof alone.
#[verifier::external_body]
fn encode_calldata(instances: &Vec<Vec<Fr>>, proof: &Vec<u8>) -> (r: Vec<u8>)
    ensures
        r@ == calldata_of(instances_view(instances@), proof@),
        r@.len() == 32 * flat_count(instances_view(instances@)) + proof@.len(),
{
    snark_verifier::loader::evm::encode_calldata(instances.as_slice(), proof.as_slice())
}

/// Relies on snark_verifier::loader::evm::deploy_and_call: it deploys the
/// bytecode and calls the installed contract in a freshly built in-memory
/// EVM with a fixed configuration, so the outcome, gas used included, is a
/// function of the bytecode and the calldata alone; `Ok` carries the gas
/// used by the call, `Err` a description of the failure. The EVM's
/// transaction validation rejects deployment code over its initcode cap
/// before execution and the call does not return normally on it, so such
/// code is excluded here.
#[verifier::external_body]
fn deploy_and_call(code: Vec<u8>, calldata: Vec<u8>) -> (r: Result<u64, String>)
    requires
        code@.len() <= MAX_DEPLOYMENT_CODE_LEN,
    ensures
        (match r {
            Ok(gas) => Ok::<u64, Seq<char>>(gas),
            Err(e) => Err::<u64, Seq<char>>(e@),
        }) == evm_outcome(code@, calldata@),
{
    snark_verifier::loader::evm::deploy_and_call(code, calldata)
}

/// How the driver classifies the EVM outcome for a bytecode and a record:
/// success exactly when the EVM accepts, and every deploy-and-call failure
/// collapsed to the deployment failure reason.
pub open spec fn spec_evm_verify(
    code: Seq<u8>,
    instances: Seq<Seq<Fr>>,
    proof: Seq<u8>,
) -> Result<(), EvmVerificationError> {
    match evm_outcome(code, calldata_of(instances, proof)) {
        Ok(_) => Ok(()),
        Err(_) => Err(EvmVerificationError::Deploy),
    }
}

/// Verify by executing the bytecode with the record's public instances and
/// proof bytes as input, in a fresh embedded EVM. Deployment code must fit
/// under the EVM's own cap on constructor code.
pub fn evm_verify(deployment_code: DeploymentCode, snark: Snark) -> (r: Result<
    (),
    EvmVerificationError,
>)
    requires
        deployment_code@.len() <= MAX_DEPLOYMENT_CODE_LEN,
    ensures
        r == spec_evm_verify(deployment_code@, instances_view(snark.instances@), snark.proof@),
{
    proof {
        crate::container::lemma_view_is_code(&deployment_code);
    }
    let calldata = encode_calldata(&snark.instances, &snark.proof);
    match deploy_and_call(deployment_code.code, calldata) {
        Ok(_gas) => Ok(()),
        Err(_e) => Err(EvmVerificationError::Deploy),
    }
}

/// Law: the driver is deterministic. Its outcome is a function of the
/// bytecode and the record alone, so repeated invocations on equal inputs
/// return equal classifications: rejections repeat alike, and success
/// repeats as success.
pub proof fn lemma_verify_deterministic(
    code: Seq<u8>,
    instances: Seq<Seq<Fr>>,
    proof: Seq<u8>,
    r1: Result<(), EvmVerificationError>,
    r2: Result<(), EvmVerificationError>,
)
    requires
        r1 == spec_evm_verify(code, instances, proof),
        r2 == spec_evm_verify(code, instances, proof),
    ensures
        r1 == r2,
{
}

/// Law: the driver succeeds exactly when the embedded EVM accepts the
/// deploy-and-call of the bytecode on the assembled calldata, and otherwise
/// reports the deployment failure reason.
pub proof fn lemma_verify_classification(code: Seq<u8>, instances: Seq<Seq<Fr>>, proof: Seq<u8>)
    ensures
        evm_outcome(code, calldata_of(instances, proof)) is Ok <==> spec_evm_verify(
            code,
            instances,
            proof,
        ) == Ok::<(), EvmVerificationError>(()),
        evm_outcome(code, calldata_of(instances, proof)) is Err <==> spec_evm_verify(
            code,
            instances,
            proof,
        ) == Err::<(), EvmVerificationError>(EvmVerificationError::Deploy),
{
}

} // verus!
