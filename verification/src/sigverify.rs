//! Artifact signature verification settings and their rules.
//!
//! The cryptographic verification itself is an external collaborator; what
//! the core owns is the configuration and its decision rules: when
//! verification runs at all, and that enforcement without any trust root is
//! a configuration error rather than an allow.

use vstd::prelude::*;

use crate::errors::ErrorKind;

verus! {

/// Signature verification settings as the host consumes them.
#[derive(Debug)]
pub struct VerificationConfig {
    /// Whether signature verification is enforced.
    pub enforce: bool,
    /// Trusted public keys, PEM text.
    pub trusted_keys: Vec<String>,
    /// Paths of trusted certificates.
    pub trusted_certs: Vec<String>,
    /// Whether certificates from the public certificate authority are
    /// accepted.
    pub allow_fulcio: bool,
}

/// Signature verification settings as configuration files carry them.
#[derive(Debug)]
pub struct SignatureVerificationConfig {
    /// Whether signature verification is enforced.
    pub enforce: bool,
    /// Trusted public keys, PEM text.
    pub trusted_keys: Vec<String>,
    /// Paths of trusted certificates.
    pub trusted_certs: Vec<String>,
    /// Whether certificates from the public certificate authority are
    /// accepted.
    pub allow_fulcio: bool,
}

impl VerificationConfig {
    /// Adopts the configuration-file form, field for field.
    #[verifier::loop_isolation(false)]
    pub fn from_settings(config: &SignatureVerificationConfig) -> (r: Self)
        ensures
            r.enforce == config.enforce,
            r.allow_fulcio == config.allow_fulcio,
            r.trusted_keys@.len() == config.trusted_keys@.len(),
            forall|i: int|
                0 <= i < r.trusted_keys@.len() ==> #[trigger] r.trusted_keys@[i]@
                    == config.trusted_keys@[i]@,
            r.trusted_certs@.len() == config.trusted_certs@.len(),
            forall|i: int|
                0 <= i < r.trusted_certs@.len() ==> #[trigger] r.trusted_certs@[i]@
                    == config.trusted_certs@[i]@,
    {
        let mut keys: Vec<String> = Vec::new();
        let nk = config.trusted_keys.len();
        for i in 0..nk
            invariant
                nk == config.trusted_keys@.len(),
                keys@.len() == i,
                forall|j: int|
                    0 <= j < i ==> #[trigger] keys@[j]@ == config.trusted_keys@[j]@,
        {
            keys.push(config.trusted_keys[i].clone());
        }
        let mut certs: Vec<String> = Vec::new();
        let nc = config.trusted_certs.len();
        for i in 0..nc
            invariant
                nc == config.trusted_certs@.len(),
                certs@.len() == i,
                forall|j: int|
                    0 <= j < i ==> #[trigger] certs@[j]@ == config.trusted_certs@[j]@,
        {
            certs.push(config.trusted_certs[i].clone());
        }
        VerificationConfig {
            enforce: config.enforce,
            trusted_keys: keys,
            trusted_certs: certs,
            allow_fulcio: config.allow_fulcio,
        }
    }
}

/// A usable trust configuration: verification that is not enforced needs no
/// roots; enforced verification needs the public authority or at least one
/// key or certificate.
pub open spec fn trust_config_ok(c: VerificationConfig) -> bool {
    !c.enforce || c.allow_fulcio || c.trusted_keys@.len() > 0 || c.trusted_certs@.len() > 0
}

/// Validates the trust configuration at verifier construction.
///
/// Enforcement over an empty trust set is a configuration error,
/// [`ErrorKind::SignatureError`] — never an allow.
pub fn validate_trust_config(c: &VerificationConfig) -> (r: Result<(), ErrorKind>)
    ensures
        r is Ok <==> trust_config_ok(*c),
        r matches Err(e) ==> e == ErrorKind::SignatureError,
{
    if !c.enforce {
        return Ok(());
    }
    if c.allow_fulcio || c.trusted_keys.len() > 0 || c.trusted_certs.len() > 0 {
        Ok(())
    } else {
        Err(ErrorKind::SignatureError)
    }
}

/// Whether an artifact reference must be verified under this
/// configuration: exactly when enforcement is on. A disabled configuration
/// skips verification and accepts the artifact.
pub fn verification_required(c: &VerificationConfig) -> (r: bool)
    ensures
        r == c.enforce,
{
    c.enforce
}

/// Decides the outcome of an enforced verification from what the external
/// verifier reports: the artifact passes exactly when at least one
/// signature layer verified against the trust root; zero layers is
/// [`ErrorKind::SignatureError`].
pub fn signature_outcome(verified_layers: usize) -> (r: Result<(), ErrorKind>)
    ensures
        r is Ok <==> verified_layers > 0,
        r matches Err(e) ==> e == ErrorKind::SignatureError,
{
    if verified_layers > 0 {
        Ok(())
    } else {
        Err(ErrorKind::SignatureError)
    }
}

} // verus!
