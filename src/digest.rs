//! The content digest of a file: gxhash's 64-bit hash of the bytes under a
//! fixed seed, written in decimal.
use vstd::prelude::*;
use vstd::string::*;

verus! {

/// The seed of every digest, the same in every run so that digests of
/// unchanged content stay equal.
pub const DIGEST_SEED: i64 = 1234;

/// What gxhash's seeded 64-bit hasher gives for `content` under `seed`.
pub uninterp spec fn gx_hash64(content: Seq<u8>, seed: i64) -> u64;

/// Relies on gxhash::GxHasher (`with_seed`, then one `write` of the bytes,
/// then `finish`): the value depends on the bytes and the seed alone.
#[verifier::external_body]
fn gx_hash(content: &[u8], seed: i64) -> (r: u64)
    ensures
        r == gx_hash64(content@, seed),
{
    let mut hasher = gxhash::GxHasher::with_seed(seed);
    std::hash::Hasher::write(&mut hasher, content);
    std::hash::Hasher::finish(&hasher)
}

/// The decimal digit character for `d < 10`.
pub open spec fn digit_char(d: nat) -> char {
    if d == 0 { '0' }
    else if d == 1 { '1' }
    else if d == 2 { '2' }
    else if d == 3 { '3' }
    else if d == 4 { '4' }
    else if d == 5 { '5' }
    else if d == 6 { '6' }
    else if d == 7 { '7' }
    else if d == 8 { '8' }
    else { '9' }
}

/// `n` written in decimal, without leading zeros.
pub open spec fn decimal(n: nat) -> Seq<char>
    decreases n,
{
    if n < 10 {
        seq![digit_char(n)]
    } else {
        decimal(n / 10).push(digit_char(n % 10))
    }
}

/// The digest text of a file whose bytes are `content`.
pub open spec fn content_digest(content: Seq<u8>) -> Seq<char> {
    decimal(gx_hash64(content, DIGEST_SEED) as nat)
}

spec fn digit_chars(ds: Seq<u8>) -> Seq<char> {
    ds.map_values(|d: u8| digit_char(d as nat))
}

fn digit_str(d: u8) -> (s: &'static str)
    requires
        d < 10,
    ensures
        s@ == seq![digit_char(d as nat)],
{
    if d == 0 {
        proof { reveal_strlit("0"); }
        "0"
    } else if d == 1 {
        proof { reveal_strlit("1"); }
        "1"
    } else if d == 2 {
        proof { reveal_strlit("2"); }
        "2"
    } else if d == 3 {
        proof { reveal_strlit("3"); }
        "3"
    } else if d == 4 {
        proof { reveal_strlit("4"); }
        "4"
    } else if d == 5 {
        proof { reveal_strlit("5"); }
        "5"
    } else if d == 6 {
        proof { reveal_strlit("6"); }
        "6"
    } else if d == 7 {
        proof { reveal_strlit("7"); }
        "7"
    } else if d == 8 {
        proof { reveal_strlit("8"); }
        "8"
    } else {
        proof { reveal_strlit("9"); }
        "9"
    }
}

/// `n` written in decimal.
pub fn decimal_text(n: u64) -> (r: String)
    ensures
        r@ == decimal(n as nat),
{
    let mut m: u64 = n;
    let mut digits: Vec<u8> = Vec::new();
    while m >= 10
        invariant
            decimal(n as nat) == decimal(m as nat) + digit_chars(digits@),
            forall|j: int| 0 <= j < digits@.len() ==> digits@[j] < 10,
        decreases m,
    {
        let d = (m % 10) as u8;
        let ghost old_digits = digits@;
        digits.insert(0, d);
        assert(digit_chars(digits@) =~= seq![digit_char(d as nat)] + digit_chars(old_digits));
        assert(decimal(m as nat) == decimal((m / 10) as nat).push(digit_char((m % 10) as nat)));
        assert(decimal(m as nat) + digit_chars(old_digits) =~= decimal((m / 10) as nat) + digit_chars(digits@));
        m = m / 10;
    }
    let ghost old_digits = digits@;
    digits.insert(0, m as u8);
    assert(digit_chars(digits@) =~= seq![digit_char(m as nat)] + digit_chars(old_digits));
    assert(decimal(n as nat) =~= digit_chars(digits@));
    let mut r = String::new();
    let mut i: usize = 0;
    while i < digits.len()
        invariant
            i <= digits@.len(),
            r@ == digit_chars(digits@.subrange(0, i as int)),
            forall|j: int| 0 <= j < digits@.len() ==> digits@[j] < 10,
        decreases digits@.len() - i,
    {
        r.append(digit_str(digits[i]));
        assert(digit_chars(digits@.subrange(0, i + 1)) =~= digit_chars(digits@.subrange(0, i as int)).push(digit_char(digits@[i as int] as nat)));
        i = i + 1;
    }
    assert(digits@.subrange(0, i as int) =~= digits@);
    r
}

/// The digest of a file's content.
pub fn hash_content(content: &[u8]) -> (r: String)
    ensures
        r@ == content_digest(content@),
{
    let h = gx_hash(content, DIGEST_SEED);
    decimal_text(h)
}

/// Identical bytes give identical digests, in this run and in every other:
/// the digest depends on the content alone.
pub proof fn lemma_digest_deterministic(a: Seq<u8>, b: Seq<u8>)
    requires
        a == b,
    ensures
        content_digest(a) == content_digest(b),
{
}

} // verus!
