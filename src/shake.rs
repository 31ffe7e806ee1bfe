use vstd::prelude::*;
use crate::error::ConfigError;
use crate::zp::all_below;

verus! {

/// Extra hash bytes drawn beyond `k + w`, for the rejected ones.
pub const SAMPLE_SLACK: usize = 30;

/// The first `len` bytes of the SHAKE128 output stream on `input`.
pub uninterp spec fn shake128_stream(input: Seq<u8>, len: nat) -> Seq<u8>;

/// Relies on sha3's `Shake128` (`Update::update`, `ExtendableOutput::finalize_xof`,
/// `XofReader::read`): `read` fills the whole buffer with the next bytes of
/// the output stream, which depends on `input` alone.
#[verifier::external_body]
fn shake128(input: &Vec<u8>, len: usize) -> (r: Vec<u8>)
    ensures
        r@ == shake128_stream(input@, len as nat),
        r@.len() == len,
{
    let mut hasher = sha3::Shake128::default();
    sha3::digest::Update::update(&mut hasher, input);
    let mut reader = sha3::digest::ExtendableOutput::finalize_xof(hasher);
    let mut out = vec![0u8; len];
    sha3::digest::XofReader::read(&mut reader, &mut out);
    out
}

/// The values that rejection sampling keeps from `s`, in order: each byte
/// below 255 gives `byte / 15`; the byte 255 is skipped.
pub open spec fn accepted(s: Seq<u8>) -> Seq<u64>
    decreases s.len(),
{
    if s.len() == 0 {
        seq![]
    } else if s.last() < 255 {
        accepted(s.drop_last()).push((s.last() / 15) as u64)
    } else {
        accepted(s.drop_last())
    }
}

/// The bytes hashed for a master key and an IV: the key, the IV, then `'1'`.
pub open spec fn keygen_input(master_key: Seq<u8>, iv: Seq<u8>) -> Seq<u8> {
    master_key + iv + seq![49u8]
}

/// What sampling `k + w` values from `stream` gives: `(whitening, round_key)`.
pub open spec fn sample_outcome(stream: Seq<u8>, k: nat, w: nat) -> Result<
    (Seq<u64>, Seq<u64>),
    ConfigError,
> {
    let acc = accepted(stream);
    if acc.len() >= k + w {
        Ok((acc.subrange(k as int, (k + w) as int), acc.take(k as int)))
    } else {
        Err(ConfigError::SampleExhausted)
    }
}

/// What seed derivation gives for a master key, an IV and the two lengths.
pub open spec fn keygen_outcome(master_key: Seq<u8>, iv: Seq<u8>, k: nat, w: nat) -> Result<
    (Seq<u64>, Seq<u64>),
    ConfigError,
> {
    if master_key.len() != 16 {
        Err(ConfigError::MasterKeyLength)
    } else {
        sample_outcome(shake128_stream(keygen_input(master_key, iv), (k + w + SAMPLE_SLACK) as nat), k, w)
    }
}

/// The views of a pair of seeds.
pub open spec fn seeds_view(r: Result<(Vec<u64>, Vec<u64>), ConfigError>) -> Result<
    (Seq<u64>, Seq<u64>),
    ConfigError,
> {
    match r {
        Ok(pair) => Ok((pair.0@, pair.1@)),
        Err(e) => Err(e),
    }
}

proof fn lemma_accepted_prefix(s: Seq<u8>, c: nat, n: nat)
    requires
        c <= n <= s.len(),
    ensures
        accepted(s.take(c as int)).len() <= accepted(s.take(n as int)).len(),
        accepted(s.take(n as int)).take(accepted(s.take(c as int)).len() as int)
            == accepted(s.take(c as int)),
    decreases n,
{
    if c < n {
        lemma_accepted_prefix(s, c, (n - 1) as nat);
        assert(s.take(n as int).drop_last() =~= s.take(n - 1));
        let a = accepted(s.take(c as int));
        let b = accepted(s.take(n - 1));
        assert(b.take(a.len() as int) == a);
        if s.take(n as int).last() < 255 {
            assert(b.push((s[n - 1] / 15) as u64).take(a.len() as int) =~= b.take(a.len() as int));
        }
    } else {
        assert(accepted(s.take(n as int)).take(accepted(s.take(n as int)).len() as int)
            =~= accepted(s.take(n as int)));
    }
}

/// Every sampled value lies in `[0, 17)`.
pub proof fn lemma_accepted_below(s: Seq<u8>)
    ensures
        all_below(accepted(s), 17),
    decreases s.len(),
{
    if s.len() > 0 {
        lemma_accepted_below(s.drop_last());
    }
}

/// Every derived seed value lies in `[0, 17)`; the seeds depend on the
/// master key, the IV and the two lengths alone.
pub proof fn lemma_keygen_values_below(master_key: Seq<u8>, iv: Seq<u8>, k: nat, w: nat)
    ensures
        keygen_outcome(master_key, iv, k, w) is Ok ==> {
            &&& all_below(keygen_outcome(master_key, iv, k, w)->Ok_0.0, 17)
            &&& all_below(keygen_outcome(master_key, iv, k, w)->Ok_0.1, 17)
        },
{
    let stream = shake128_stream(keygen_input(master_key, iv), (k + w + SAMPLE_SLACK) as nat);
    lemma_accepted_below(stream);
}

/// Rejection sampling over a hash stream: the first `k` accepted values form
/// the round-key seed and the next `w` the whitening seed, returned as
/// `(whitening, round_key)`.
pub fn sample_seeds(stream: &Vec<u8>, k: usize, w: usize) -> (r: Result<
    (Vec<u64>, Vec<u64>),
    ConfigError,
>)
    requires
        k + w <= usize::MAX,
    ensures
        seeds_view(r) == sample_outcome(stream@, k as nat, w as nat),
        r is Ok ==> all_below(r->Ok_0.0@, 17) && all_below(r->Ok_0.1@, 17),
{
    let need = k + w;
    let mut all: Vec<u64> = Vec::new();
    let mut cursor: usize = 0;
    while cursor < stream.len() && all.len() < need
        invariant
            0 <= cursor <= stream@.len(),
            all@ == accepted(stream@.take(cursor as int)),
            all@.len() <= need,
        decreases stream@.len() - cursor,
    {
        let x = stream[cursor];
        assert(stream@.take(cursor + 1).drop_last() =~= stream@.take(cursor as int));
        if x < 255 {
            all.push((x / 15) as u64);
        }
        cursor += 1;
    }
    proof {
        lemma_accepted_prefix(stream@, cursor as nat, stream@.len());
        assert(stream@.take(stream@.len() as int) =~= stream@);
        lemma_accepted_below(stream@);
    }
    if all.len() < need {
        return Err(ConfigError::SampleExhausted);
    }
    let ghost acc = accepted(stream@);
    assert(acc.take(need as int) == all@);
    assert(acc.len() >= need);
    let mut k_content: Vec<u64> = Vec::new();
    let mut i: usize = 0;
    while i < k
        invariant
            0 <= i <= k,
            k + w == need,
            all@.len() == need,
            all@ == acc.take(need as int),
            acc.len() >= need,
            k_content@ == acc.take(i as int),
        decreases k - i,
    {
        k_content.push(all[i]);
        assert(k_content@ =~= acc.take(i + 1));
        i += 1;
    }
    let mut w_content: Vec<u64> = Vec::new();
    let mut j: usize = k;
    while j < need
        invariant
            k <= j <= need,
            k + w == need,
            all@.len() == need,
            all@ == acc.take(need as int),
            acc.len() >= need,
            w_content@ == acc.subrange(k as int, j as int),
        decreases need - j,
    {
        w_content.push(all[j]);
        assert(w_content@ =~= acc.subrange(k as int, j + 1));
        j += 1;
    }
    Ok((w_content, k_content))
}

/// Derives the two register seeds from a 16-byte master key and an IV:
/// SHAKE128 over `master_key ++ iv ++ "1"`, `k + w + 30` bytes drawn, then
/// rejection sampling. Returns `(whitening seed of length w, round-key seed of length k)`.
pub fn shake_keygen(master_key: &[u8], k: usize, w: usize, iv: &[u8]) -> (r: Result<
    (Vec<u64>, Vec<u64>),
    ConfigError,
>)
    requires
        k + w + SAMPLE_SLACK <= usize::MAX,
    ensures
        seeds_view(r) == keygen_outcome(master_key@, iv@, k as nat, w as nat),
        r is Ok ==> all_below(r->Ok_0.0@, 17) && all_below(r->Ok_0.1@, 17),
{
    if master_key.len() != 16 {
        return Err(ConfigError::MasterKeyLength);
    }
    let mut to_shake: Vec<u8> = Vec::new();
    let mut i: usize = 0;
    while i < master_key.len()
        invariant
            0 <= i <= master_key@.len(),
            to_shake@ == master_key@.take(i as int),
        decreases master_key@.len() - i,
    {
        to_shake.push(master_key[i]);
        assert(to_shake@ =~= master_key@.take(i + 1));
        i += 1;
    }
    let mut j: usize = 0;
    while j < iv.len()
        invariant
            0 <= j <= iv@.len(),
            to_shake@ == master_key@ + iv@.take(j as int),
        decreases iv@.len() - j,
    {
        to_shake.push(iv[j]);
        assert(to_shake@ =~= master_key@ + iv@.take(j + 1));
        j += 1;
    }
    to_shake.push(49u8);
    assert(to_shake@ =~= keygen_input(master_key@, iv@));
    let stream = shake128(&to_shake, k + w + SAMPLE_SLACK);
    sample_seeds(&stream, k, w)
}

} // verus!
