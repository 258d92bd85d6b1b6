//! Checksums: xxHash64 (the default, and the one media hash lists define an
//! element for), xxHash3, and MD5 for interop with other media tools.
//!
//! The algorithms themselves come from the `xxhash-rust` and `md-5` crates. A
//! hasher is described by the bytes it has been fed, so feeding a file in
//! chunks of any size gives the checksum of its whole content.

use crate::text;
use crate::text::{hex_bytes_text, hex_text, same_text, to_ascii_lower};
use md5::Digest;
use vstd::prelude::*;

verus! {

// ---------------------------------------------------------------------------
// Trusted items: the streaming hashers
// ---------------------------------------------------------------------------

/// The streaming state of `xxhash_rust::xxh3::Xxh3`.
#[verifier::external_type_specification]
#[verifier::external_body]
pub struct ExXxh3(xxhash_rust::xxh3::Xxh3);

/// The streaming state of `xxhash_rust::xxh64::Xxh64`.
#[verifier::external_type_specification]
#[verifier::external_body]
pub struct ExXxh64(xxhash_rust::xxh64::Xxh64);

/// The streaming state of `md5::Md5`.
#[verifier::external_type_specification]
#[verifier::external_body]
pub struct ExMd5(md5::Md5);

/// The bytes an `Xxh3` has been fed.
pub uninterp spec fn xxh3_fed(h: xxhash_rust::xxh3::Xxh3) -> Seq<u8>;

/// Whether an `Xxh3` was made with the default seed and secret.
pub uninterp spec fn xxh3_default(h: xxhash_rust::xxh3::Xxh3) -> bool;

/// The 64-bit xxHash3 of a string of bytes, with the default seed and secret.
pub uninterp spec fn xxh3_sum(data: Seq<u8>) -> u64;

/// The bytes an `Xxh64` has been fed.
pub uninterp spec fn xxh64_fed(h: xxhash_rust::xxh64::Xxh64) -> Seq<u8>;

/// The seed an `Xxh64` was made with.
pub uninterp spec fn xxh64_seed(h: xxhash_rust::xxh64::Xxh64) -> u64;

/// The xxHash64 of a string of bytes under a seed.
pub uninterp spec fn xxh64_sum(seed: u64, data: Seq<u8>) -> u64;

/// The bytes an `Md5` has been fed.
pub uninterp spec fn md5_fed(h: md5::Md5) -> Seq<u8>;

/// The MD5 digest of a string of bytes.
pub uninterp spec fn md5_sum(data: Seq<u8>) -> Seq<u8>;

/// `Xxh3::new`: a hasher with default settings that has been fed nothing.
#[verifier::external_body]
fn xxh3_new() -> (h: xxhash_rust::xxh3::Xxh3)
    ensures
        xxh3_fed(h) == Seq::<u8>::empty(),
        xxh3_default(h),
{
    xxhash_rust::xxh3::Xxh3::new()
}

/// `Xxh3::update`: feeds the bytes of `data` after what was fed before. The
/// settings stay.
#[verifier::external_body]
fn xxh3_update(h: &mut xxhash_rust::xxh3::Xxh3, data: &[u8])
    ensures
        xxh3_fed(*final(h)) == xxh3_fed(*old(h)) + data@,
        xxh3_default(*final(h)) == xxh3_default(*old(h)),
{
    h.update(data)
}

/// `Xxh3::digest`: the hash of everything fed, however it was cut into chunks.
#[verifier::external_body]
fn xxh3_digest(h: &xxhash_rust::xxh3::Xxh3) -> (r: u64)
    requires
        xxh3_default(*h),
    ensures
        r == xxh3_sum(xxh3_fed(*h)),
{
    h.digest()
}

/// `Xxh64::new`: a hasher with this seed that has been fed nothing.
#[verifier::external_body]
fn xxh64_new(seed: u64) -> (h: xxhash_rust::xxh64::Xxh64)
    ensures
        xxh64_fed(h) == Seq::<u8>::empty(),
        xxh64_seed(h) == seed,
{
    xxhash_rust::xxh64::Xxh64::new(seed)
}

/// `Xxh64::update`: feeds the bytes of `data` after what was fed before. The
/// seed stays.
#[verifier::external_body]
fn xxh64_update(h: &mut xxhash_rust::xxh64::Xxh64, data: &[u8])
    ensures
        xxh64_fed(*final(h)) == xxh64_fed(*old(h)) + data@,
        xxh64_seed(*final(h)) == xxh64_seed(*old(h)),
{
    h.update(data)
}

/// `Xxh64::digest`: the hash of everything fed, however it was cut into
/// chunks.
#[verifier::external_body]
fn xxh64_digest(h: &xxhash_rust::xxh64::Xxh64) -> (r: u64)
    ensures
        r == xxh64_sum(xxh64_seed(*h), xxh64_fed(*h)),
{
    h.digest()
}

/// `Md5::new`: a hasher that has been fed nothing.
#[verifier::external_body]
fn md5_new() -> (h: md5::Md5)
    ensures
        md5_fed(h) == Seq::<u8>::empty(),
{
    md5::Md5::new()
}

/// `Digest::update` of `Md5`: feeds the bytes of `data` after what was fed
/// before.
#[verifier::external_body]
fn md5_update(h: &mut md5::Md5, data: &[u8])
    ensures
        md5_fed(*final(h)) == md5_fed(*old(h)) + data@,
{
    Digest::update(h, data)
}

/// `Digest::finalize` of `Md5`: the sixteen bytes of the digest of everything
/// fed, however it was cut into chunks.
#[verifier::external_body]
fn md5_finalize(h: md5::Md5) -> (r: Vec<u8>)
    ensures
        r@ == md5_sum(md5_fed(h)),
        r@.len() == 16,
{
    h.finalize().to_vec()
}

// ---------------------------------------------------------------------------
// Algorithms
// ---------------------------------------------------------------------------

/// Which checksum algorithm to use.
#[derive(Debug, Clone, Copy, PartialEq, Eq, Structural)]
pub enum HashAlgo {
    /// xxHash64: fast, and the standard of media hash lists.
    Xxh64,
    /// xxHash3 (64-bit): extremely fast, non-cryptographic integrity check.
    Xxh3,
    /// MD5: slower, but the de-facto standard for hash lists and sidecars.
    Md5,
}

/// The algorithm a name stands for, whatever its letter case.
pub open spec fn algo_of_name(s: Seq<char>) -> Option<HashAlgo> {
    let low = text::ascii_lower(s);
    if low == "xxh64"@ {
        Some(HashAlgo::Xxh64)
    } else if low == "xxh3"@ || low == "xxhash"@ || low == "xxhash3"@ {
        Some(HashAlgo::Xxh3)
    } else if low == "md5"@ {
        Some(HashAlgo::Md5)
    } else {
        None
    }
}

/// The short name of an algorithm.
pub open spec fn algo_name(algo: HashAlgo) -> Seq<char> {
    match algo {
        HashAlgo::Xxh64 => "xxh64"@,
        HashAlgo::Xxh3 => "xxh3"@,
        HashAlgo::Md5 => "md5"@,
    }
}

/// The element a media hash list has for an algorithm.
pub open spec fn mhl_element_of(algo: HashAlgo) -> Option<Seq<char>> {
    match algo {
        HashAlgo::Xxh64 => Some("xxhash64be"@),
        HashAlgo::Xxh3 => None,
        HashAlgo::Md5 => Some("md5"@),
    }
}

/// The checksum of a string of bytes, in lower-case hexadecimal.
pub open spec fn checksum(algo: HashAlgo, data: Seq<u8>) -> Seq<char> {
    match algo {
        HashAlgo::Xxh64 => text::hex_digits(xxh64_sum(0, data) as nat, 16),
        HashAlgo::Xxh3 => text::hex_digits(xxh3_sum(data) as nat, 16),
        HashAlgo::Md5 => text::hex_of_bytes(md5_sum(data)),
    }
}

/// How many digits a checksum has.
pub open spec fn checksum_len(algo: HashAlgo) -> nat {
    match algo {
        HashAlgo::Xxh64 => 16,
        HashAlgo::Xxh3 => 16,
        HashAlgo::Md5 => 32,
    }
}

impl HashAlgo {
    /// The algorithm named by `s`, in any letter case.
    pub fn parse(s: &str) -> (r: Option<Self>)
        ensures
            r == algo_of_name(s@),
    {
        let low = to_ascii_lower(s);
        let low = low.as_str();
        if same_text(low, "xxh64") {
            Some(HashAlgo::Xxh64)
        } else if same_text(low, "xxh3") || same_text(low, "xxhash") || same_text(low, "xxhash3") {
            Some(HashAlgo::Xxh3)
        } else if same_text(low, "md5") {
            Some(HashAlgo::Md5)
        } else {
            None
        }
    }

    /// The short name of the algorithm.
    pub fn name(self) -> (r: &'static str)
        ensures
            r@ == algo_name(self),
    {
        match self {
            HashAlgo::Xxh64 => "xxh64",
            HashAlgo::Xxh3 => "xxh3",
            HashAlgo::Md5 => "md5",
        }
    }

    /// The element that a media hash list has for the algorithm, if any.
    pub fn mhl_element(self) -> (r: Option<&'static str>)
        ensures
            r is Some <==> mhl_element_of(self) is Some,
            r matches Some(e) ==> e@ == mhl_element_of(self)->0,
    {
        match self {
            HashAlgo::Xxh64 => Some("xxhash64be"),
            HashAlgo::Xxh3 => None,
            HashAlgo::Md5 => Some("md5"),
        }
    }
}

// ---------------------------------------------------------------------------
// Streaming
// ---------------------------------------------------------------------------

/// A streaming hasher that can be fed bytes incrementally.
pub enum Hasher {
    Xxh64(Box<xxhash_rust::xxh64::Xxh64>),
    Xxh3(Box<xxhash_rust::xxh3::Xxh3>),
    Md5(md5::Md5),
}

impl Hasher {
    /// Whether the hasher has the settings that `new` gives it.
    pub open spec fn wf(self) -> bool {
        match self {
            Hasher::Xxh64(h) => xxh64_seed(*h) == 0,
            Hasher::Xxh3(h) => xxh3_default(*h),
            Hasher::Md5(h) => true,
        }
    }

    /// The algorithm of the hasher.
    pub open spec fn algo(self) -> HashAlgo {
        match self {
            Hasher::Xxh64(h) => HashAlgo::Xxh64,
            Hasher::Xxh3(h) => HashAlgo::Xxh3,
            Hasher::Md5(h) => HashAlgo::Md5,
        }
    }

    /// The bytes the hasher has been fed.
    pub open spec fn fed(self) -> Seq<u8> {
        match self {
            Hasher::Xxh64(h) => xxh64_fed(*h),
            Hasher::Xxh3(h) => xxh3_fed(*h),
            Hasher::Md5(h) => md5_fed(h),
        }
    }

    /// A hasher for `algo` that has been fed nothing.
    pub fn new(algo: HashAlgo) -> (r: Self)
        ensures
            r.wf(),
            r.algo() == algo,
            r.fed() == Seq::<u8>::empty(),
    {
        match algo {
            HashAlgo::Xxh64 => Hasher::Xxh64(Box::new(xxh64_new(0))),
            HashAlgo::Xxh3 => Hasher::Xxh3(Box::new(xxh3_new())),
            HashAlgo::Md5 => Hasher::Md5(md5_new()),
        }
    }

    /// Feeds the bytes of `data` after what was fed before.
    pub fn update(&mut self, data: &[u8])
        requires
            old(self).wf(),
        ensures
            final(self).wf(),
            final(self).algo() == old(self).algo(),
            final(self).fed() == old(self).fed() + data@,
    {
        match self {
            Hasher::Xxh64(h) => xxh64_update(h, data),
            Hasher::Xxh3(h) => xxh3_update(h, data),
            Hasher::Md5(h) => md5_update(h, data),
        }
    }

    /// The checksum of everything fed, in lower-case hexadecimal.
    pub fn finalize_hex(self) -> (r: String)
        requires
            self.wf(),
        ensures
            r@ == checksum(self.algo(), self.fed()),
            r@.len() == checksum_len(self.algo()),
            text::is_hex(r@),
    {
        match self {
            Hasher::Xxh64(h) => {
                let sum = xxh64_digest(&h);
                proof {
                    text::hex_digits_shape(sum as nat, 16);
                }
                hex_text(sum, 16)
            },
            Hasher::Xxh3(h) => {
                let sum = xxh3_digest(&h);
                proof {
                    text::hex_digits_shape(sum as nat, 16);
                }
                hex_text(sum, 16)
            },
            Hasher::Md5(h) => {
                let sum = md5_finalize(h);
                proof {
                    text::hex_of_bytes_shape(sum@);
                }
                hex_bytes_text(&sum)
            },
        }
    }
}

/// A file being hashed as it is read.
pub struct HashSession {
    /// The hash of what was read.
    pub hasher: Hasher,
    /// Whether the end of the file was met.
    pub ended: bool,
}

impl HashSession {
    /// Starts at the beginning of a file.
    pub fn new(algo: HashAlgo) -> (r: HashSession)
        ensures
            r.hasher.wf(),
            r.hasher.algo() == algo,
            r.hasher.fed() == Seq::<u8>::empty(),
            !r.ended,
    {
        HashSession { hasher: Hasher::new(algo), ended: false }
    }

    /// Takes what was read next. Nothing read is the end of the file.
    pub fn read(&mut self, chunk: &[u8])
        requires
            old(self).hasher.wf(),
            !old(self).ended,
        ensures
            final(self).hasher.wf(),
            final(self).hasher.algo() == old(self).hasher.algo(),
            final(self).hasher.fed() == old(self).hasher.fed() + chunk@,
            final(self).ended == (chunk@.len() == 0),
    {
        if chunk.len() == 0 {
            self.ended = true;
            assert(self.hasher.fed() + chunk@ == self.hasher.fed());
        } else {
            self.hasher.update(chunk);
        }
    }

    /// The checksum of everything that was read.
    pub fn finish(self) -> (r: String)
        requires
            self.hasher.wf(),
        ensures
            r@ == checksum(self.hasher.algo(), self.hasher.fed()),
            r@.len() == checksum_len(self.hasher.algo()),
            text::is_hex(r@),
    {
        self.hasher.finalize_hex()
    }
}

/// The bytes of a list of chunks, one chunk after the other.
pub open spec fn concat(chunks: Seq<Seq<u8>>) -> Seq<u8>
    decreases chunks.len(),
{
    if chunks.len() == 0 {
        Seq::<u8>::empty()
    } else {
        concat(chunks.drop_last()) + chunks.last()
    }
}

/// The bytes of each chunk of a list.
pub open spec fn chunk_bytes(chunks: Seq<Vec<u8>>) -> Seq<Seq<u8>> {
    Seq::new(chunks.len(), |i: int| chunks[i]@)
}

/// The checksum of a content that was read in chunks: that of all its bytes at
/// once.
pub fn hash_file(content: &Vec<Vec<u8>>, algo: HashAlgo) -> (r: String)
    ensures
        r@ == checksum(algo, concat(chunk_bytes(content@))),
        r@.len() == checksum_len(algo),
        text::is_hex(r@),
{
    let mut session = HashSession::new(algo);
    let mut i: usize = 0;
    let ghost all = chunk_bytes(content@);
    assert(all.take(0) == Seq::<Seq<u8>>::empty());
    while i < content.len()
        invariant
            all == chunk_bytes(content@),
            i <= content@.len(),
            session.hasher.wf(),
            session.hasher.algo() == algo,
            session.hasher.fed() == concat(all.take(i as int)),
            !session.ended,
        decreases content@.len() - i,
    {
        assert(all.take(i + 1).drop_last() == all.take(i as int));
        assert(all.take(i + 1).last() == content@[i as int]@);
        if content[i].len() > 0 {
            session.read(content[i].as_slice());
        } else {
            assert(session.hasher.fed() + content@[i as int]@ == session.hasher.fed());
        }
        i += 1;
    }
    assert(all.take(all.len() as int) == all);
    session.finish()
}

// ---------------------------------------------------------------------------
// Laws
// ---------------------------------------------------------------------------

/// The name of every algorithm parses back to it.
pub proof fn name_parses_back(algo: HashAlgo)
    ensures
        algo_of_name(algo_name(algo)) == Some(algo),
{
    reveal_strlit("xxh64");
    reveal_strlit("xxh3");
    reveal_strlit("xxhash");
    reveal_strlit("xxhash3");
    reveal_strlit("md5");
    assert(text::ascii_lower("xxh64"@) == "xxh64"@);
    assert(text::ascii_lower("xxh3"@) == "xxh3"@);
    assert(text::ascii_lower("md5"@) == "md5"@);
    assert("xxh3"@.len() == 4);
    assert("md5"@.len() == 3);
}

/// A content fed in chunks has the checksum of the same content fed at once.
pub proof fn streaming_matches_oneshot(algo: HashAlgo, chunks: Seq<Seq<u8>>, data: Seq<u8>)
    requires
        concat(chunks) == data,
    ensures
        checksum(algo, concat(chunks)) == checksum(algo, concat(seq![data])),
{
    reveal_with_fuel(concat, 2);
    let one = seq![data];
    assert(one.drop_last() == Seq::<Seq<u8>>::empty());
    assert(concat(one) == Seq::<u8>::empty() + data);
    assert(concat(one) == data);
}

/// Two xxHash checksums read the same only if the hash values are the same, and
/// two MD5 checksums only if the digests are: comparing checksums as text loses
/// nothing.
pub proof fn checksum_text_is_faithful(algo: HashAlgo, a: Seq<u8>, b: Seq<u8>)
    requires
        checksum(algo, a) == checksum(algo, b),
    ensures
        algo == HashAlgo::Xxh64 ==> xxh64_sum(0, a) == xxh64_sum(0, b),
        algo == HashAlgo::Xxh3 ==> xxh3_sum(a) == xxh3_sum(b),
        algo == HashAlgo::Md5 ==> md5_sum(a) == md5_sum(b),
{
    match algo {
        HashAlgo::Xxh64 => {
            text::hex_of_u64_is_injective(xxh64_sum(0, a), xxh64_sum(0, b));
        },
        HashAlgo::Xxh3 => {
            text::hex_of_u64_is_injective(xxh3_sum(a), xxh3_sum(b));
        },
        HashAlgo::Md5 => {
            text::hex_of_bytes_is_injective(md5_sum(a), md5_sum(b));
        },
    }
}

/// A checksum is the hash value itself, in base sixteen: of xxHash64 with seed
/// zero, of xxHash3, or the bytes of the MD5 digest one by one.
pub proof fn checksums_are_hash_values(data: Seq<u8>, i: int)
    ensures
        text::hex_value(checksum(HashAlgo::Xxh64, data)) == xxh64_sum(0, data),
        checksum(HashAlgo::Xxh64, data).len() == 16,
        text::hex_value(checksum(HashAlgo::Xxh3, data)) == xxh3_sum(data),
        checksum(HashAlgo::Xxh3, data).len() == 16,
        checksum(HashAlgo::Md5, data).len() == 2 * md5_sum(data).len(),
        0 <= i < md5_sum(data).len() ==> text::hex_value(
            checksum(HashAlgo::Md5, data).subrange(2 * i, 2 * i + 2),
        ) == md5_sum(data)[i],
{
    reveal_with_fuel(text::pow16, 17);
    text::hex_reads_back(xxh64_sum(0, data) as nat, 16);
    text::hex_reads_back(xxh3_sum(data) as nat, 16);
    text::hex_of_bytes_shape(md5_sum(data));
    if 0 <= i < md5_sum(data).len() {
        text::hex_of_bytes_reads_back(md5_sum(data), i);
    }
}

/// Chunks are put together in order, each once and whole.
pub proof fn chunks_are_put_together(a: Seq<Seq<u8>>, b: Seq<Seq<u8>>, chunk: Seq<u8>)
    ensures
        concat(a + b) == concat(a) + concat(b),
        concat(seq![chunk]) == chunk,
        concat(Seq::empty()).len() == 0,
    decreases b.len(),
{
    reveal_with_fuel(concat, 2);
    assert(seq![chunk].drop_last() == Seq::<Seq<u8>>::empty());
    assert(concat(seq![chunk]) == Seq::<u8>::empty() + chunk);
    assert(Seq::<u8>::empty() + chunk == chunk);
    if b.len() == 0 {
        assert(a + b == a);
        assert(concat(a) + concat(b) == concat(a));
    } else {
        chunks_are_put_together(a, b.drop_last(), chunk);
        assert((a + b).drop_last() == a + b.drop_last());
        assert((a + b).last() == b.last());
        assert(concat(a) + concat(b.drop_last()) + b.last() == concat(a) + (concat(b.drop_last())
            + b.last()));
    }
}

/// The names of the algorithms: each has its own, the letter case of a name
/// does not count, and a text that is none of these names is no algorithm.
pub proof fn algorithms_are_told_by_name(s: Seq<char>)
    ensures
        algo_name(HashAlgo::Xxh64) == "xxh64"@,
        algo_name(HashAlgo::Xxh3) == "xxh3"@,
        algo_name(HashAlgo::Md5) == "md5"@,
        algo_of_name(s) == Some(HashAlgo::Xxh64) <==> text::ascii_lower(s) == "xxh64"@,
        algo_of_name(s) == Some(HashAlgo::Xxh3) <==> seq!["xxh3"@, "xxhash"@, "xxhash3"@].contains(
            text::ascii_lower(s),
        ),
        algo_of_name(s) == Some(HashAlgo::Md5) <==> text::ascii_lower(s) == "md5"@,
        mhl_element_of(HashAlgo::Xxh64) == Some("xxhash64be"@),
        mhl_element_of(HashAlgo::Md5) == Some("md5"@),
        mhl_element_of(HashAlgo::Xxh3) is None,
{
    reveal_strlit("xxh64");
    reveal_strlit("xxh3");
    reveal_strlit("xxhash");
    reveal_strlit("xxhash3");
    reveal_strlit("md5");
    let names = seq!["xxh3"@, "xxhash"@, "xxhash3"@];
    assert(names[0] == "xxh3"@ && names[1] == "xxhash"@ && names[2] == "xxhash3"@);
    assert("xxh64"@.len() == 5 && "xxh3"@.len() == 4 && "xxhash"@.len() == 6 && "xxhash3"@.len()
        == 7 && "md5"@.len() == 3);
    let low = text::ascii_lower(s);
    if names.contains(low) {
        let k = choose|k: int| 0 <= k < names.len() && names[k] == low;
        assert(low == "xxh3"@ || low == "xxhash"@ || low == "xxhash3"@);
    }
}

/// The number of digits of a checksum goes with the algorithm.
pub proof fn checksum_lengths(data: Seq<u8>)
    requires
        md5_sum(data).len() == 16,
    ensures
        checksum(HashAlgo::Xxh64, data).len() == 16,
        checksum(HashAlgo::Xxh3, data).len() == 16,
        checksum(HashAlgo::Md5, data).len() == 32,
{
    checksums_are_hash_values(data, 0);
}

/// Chunks stand for their bytes, one by one, and each kind of hasher is of its
/// own algorithm.
pub proof fn chunks_and_hashers_stand_for_themselves(
    chunks: Seq<Vec<u8>>,
    chunk: Vec<u8>,
    h: Hasher,
)
    ensures
        chunk_bytes(Seq::empty()).len() == 0,
        chunk_bytes(chunks.push(chunk)) == chunk_bytes(chunks).push(chunk@),
        h is Xxh64 <==> h.algo() == HashAlgo::Xxh64,
        h is Xxh3 <==> h.algo() == HashAlgo::Xxh3,
        h is Md5 <==> h.algo() == HashAlgo::Md5,
        h matches Hasher::Xxh64(x) ==> h.fed() == xxh64_fed(*x) && (h.wf() <==> xxh64_seed(*x)
            == 0),
        h matches Hasher::Xxh3(x) ==> h.fed() == xxh3_fed(*x) && (h.wf() <==> xxh3_default(*x)),
        h matches Hasher::Md5(x) ==> h.fed() == md5_fed(x) && h.wf(),
{
    assert(chunk_bytes(chunks.push(chunk)) =~= chunk_bytes(chunks).push(chunk@));
}

} // verus!
