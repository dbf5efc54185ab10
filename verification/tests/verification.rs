use halo2curves_axiom::bn256::Fr;
use snark_evm::{evm_verify, DeploymentCode, EvmVerificationError, Snark};

/// Runtime code that reverts when called with empty calldata and returns
/// (accepts) otherwise:
///   CALLDATASIZE; PUSH1 9; JUMPI; PUSH1 0; PUSH1 0; REVERT; JUMPDEST; STOP
const RUNTIME: [u8; 11] = [
    0x36, 0x60, 0x09, 0x57, 0x60, 0x00, 0x60, 0x00, 0xFD, 0x5B, 0x00,
];

/// Deployment code that installs RUNTIME:
///   PUSH1 11; PUSH1 12; PUSH1 0; CODECOPY; PUSH1 11; PUSH1 0; RETURN; RUNTIME
fn checker_bytecode() -> DeploymentCode {
    let mut code = vec![
        0x60, 0x0B, 0x60, 0x0C, 0x60, 0x00, 0x39, 0x60, 0x0B, 0x60, 0x00, 0xF3,
    ];
    code.extend_from_slice(&RUNTIME);
    DeploymentCode::new(code)
}

fn accepting_snark() -> Snark {
    Snark { instances: vec![vec![Fr::from(1u64)]], proof: vec![] }
}

fn empty_snark() -> Snark {
    Snark { instances: vec![], proof: vec![] }
}

#[test]
fn valid_inputs_verify() {
    let r = evm_verify(checker_bytecode(), accepting_snark());
    assert_eq!(r, Ok(()));
}

#[test]
fn proof_bytes_reach_the_contract() {
    // No instances at all: the calldata is exactly the proof bytes, so a
    // nonempty proof must make the checker contract accept.
    let snark = Snark { instances: vec![], proof: vec![0xAA, 0xBB] };
    let r = evm_verify(checker_bytecode(), snark);
    assert_eq!(r, Ok(()));
}

#[test]
fn reverting_call_is_classified_as_deploy_failure() {
    let r = evm_verify(checker_bytecode(), empty_snark());
    assert_eq!(r, Err(EvmVerificationError::Deploy));
}

#[test]
fn failing_deployment_is_classified() {
    // PUSH1 0; PUSH1 0; REVERT: the constructor always reverts.
    let bytecode = DeploymentCode::new(vec![0x60, 0x00, 0x60, 0x00, 0xFD]);
    let r = evm_verify(bytecode, empty_snark());
    assert_eq!(r, Err(EvmVerificationError::Deploy));
}

#[test]
fn rejection_is_deterministic() {
    let first = evm_verify(checker_bytecode(), empty_snark());
    let second = evm_verify(checker_bytecode(), empty_snark());
    assert_eq!(first, second);
    assert_eq!(first, Err(EvmVerificationError::Deploy));
}

#[test]
fn success_is_idempotent() {
    let first = evm_verify(checker_bytecode(), accepting_snark());
    let second = evm_verify(checker_bytecode(), accepting_snark());
    assert_eq!(first, Ok(()));
    assert_eq!(second, Ok(()));
}

#[test]
fn error_messages_are_stable() {
    assert_eq!(
        EvmVerificationError::InvalidProof.message(),
        "Solidity verifier found the proof invalid"
    );
    assert_eq!(
        EvmVerificationError::SolidityExecution.message(),
        "Execution of Solidity code failed"
    );
    assert_eq!(
        EvmVerificationError::RawExecution.message(),
        "EVM execution of raw code failed"
    );
    assert_eq!(EvmVerificationError::Reverted.message(), "evm verification reverted");
    assert_eq!(EvmVerificationError::Deploy.message(), "evm deployment failed");
}
