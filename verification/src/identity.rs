use vstd::prelude::*;
use vstd::string::*;

use crate::error::Error;
use crate::lines::append_bytes;

verus! {

/// The longest accepted identity component, in bytes.
pub const MAX_IDENTITY_COMPONENT_BYTES: usize = 1_024;

/// Immutable logical and placement identity used to isolate repository state.
///
/// There is no way to print its namespaces, which may encode tenant or physical
/// placement information.
#[derive(PartialEq, Eq, Hash)]
pub struct RepositoryIdentity {
    provider_namespace: String,
    repository_namespace: String,
    placement_generation: u64,
    snapshot_digest: Option<String>,
}

/// Whether a character is a control code.
pub open spec fn is_control(c: char) -> bool {
    (c as u32) < 0x20 || 0x7f <= (c as u32) < 0xa0
}

/// Whether a component is not empty, short enough and free of control codes.
pub open spec fn component_accepted(value: Seq<char>) -> bool {
    &&& value.len() > 0
    &&& vstd::utf8::encode_utf8(value).len() <= MAX_IDENTITY_COMPONENT_BYTES
    &&& forall|i: int| 0 <= i < value.len() ==> !is_control(#[trigger] value[i])
}

/// A component of an identity is accepted exactly if it holds something, encodes to at
/// most a kibibyte, and holds none of the control codes below the space, the delete code
/// and those behind it.
pub proof fn which_components_are_accepted(value: Seq<char>)
    ensures
        component_accepted(value) <==> {
            &&& value.len() > 0
            &&& vstd::utf8::encode_utf8(value).len() <= 1024
            &&& forall|i: int|
                0 <= i < value.len() ==> (#[trigger] value[i] as u32) >= 0x20 && ((value[i] as u32)
                    < 0x7f || (value[i] as u32) >= 0xa0)
        },
{
    if component_accepted(value) {
        assert forall|i: int| 0 <= i < value.len() implies (#[trigger] value[i] as u32) >= 0x20 && ((
        value[i] as u32) < 0x7f || (value[i] as u32) >= 0xa0) by {
            assert(!is_control(value[i]));
        }
    }
}

fn holds_control(value: &str) -> (result: bool)
    ensures
        result == (exists|i: int| 0 <= i < value@.len() && is_control(#[trigger] value@[i])),
{
    let length: usize = value.unicode_len();
    let mut at: usize = 0;
    while at < length
        invariant
            at <= length,
            length == value@.len(),
            forall|i: int| 0 <= i < at ==> !is_control(#[trigger] value@[i]),
        decreases length - at,
    {
        let c: char = value.get_char(at);
        let code: u32 = c as u32;
        if code < 0x20 || (0x7f <= code && code < 0xa0) {
            assert(is_control(value@[at as int]));
            return true;
        }
        at += 1;
    }
    false
}

/// Accept one component of an identity.
pub fn validate_identity_component(component: &'static str, value: &str) -> (result: Result<
    (),
    Error,
>)
    ensures
        result == (if component_accepted(value@) {
            Ok::<(), Error>(())
        } else {
            Err(Error::InvalidRepositoryIdentity { component })
        }),
{
    if value.is_empty() || value.as_bytes().len() > MAX_IDENTITY_COMPONENT_BYTES || holds_control(
        value,
    ) {
        return Err(Error::InvalidRepositoryIdentity { component });
    }
    Ok(())
}

/// Eight bytes of a number, the most significant first.
pub open spec fn be_bytes(value: u64) -> Seq<u8> {
    seq![
        ((value >> 56u64) & 0xff) as u8,
        ((value >> 48u64) & 0xff) as u8,
        ((value >> 40u64) & 0xff) as u8,
        ((value >> 32u64) & 0xff) as u8,
        ((value >> 24u64) & 0xff) as u8,
        ((value >> 16u64) & 0xff) as u8,
        ((value >> 8u64) & 0xff) as u8,
        (value & 0xff) as u8,
    ]
}

/// The eight bytes of a number, the most significant first.
pub fn number_bytes(value: u64) -> (result: Vec<u8>)
    ensures
        result@ == be_bytes(value),
{
    let mut result: Vec<u8> = Vec::new();
    result.push(((value >> 56u64) & 0xff) as u8);
    result.push(((value >> 48u64) & 0xff) as u8);
    result.push(((value >> 40u64) & 0xff) as u8);
    result.push(((value >> 32u64) & 0xff) as u8);
    result.push(((value >> 24u64) & 0xff) as u8);
    result.push(((value >> 16u64) & 0xff) as u8);
    result.push(((value >> 8u64) & 0xff) as u8);
    result.push((value & 0xff) as u8);
    assert(result@ =~= be_bytes(value));
    result
}

/// A byte string behind its length.
pub open spec fn framed(bytes: Seq<u8>) -> Seq<u8> {
    be_bytes(bytes.len() as u64) + bytes
}

/// The bytes by which caches tell identities apart: both namespaces, each behind
/// its length, the placement generation and the digest of a pinned snapshot.
pub open spec fn cache_bytes(
    provider: Seq<char>,
    repository: Seq<char>,
    placement_generation: u64,
    digest: Option<Seq<char>>,
) -> Seq<u8> {
    framed(vstd::utf8::encode_utf8(provider)) + framed(vstd::utf8::encode_utf8(repository))
        + be_bytes(placement_generation) + (match digest {
        Some(digest) => vstd::utf8::encode_utf8(digest),
        None => Seq::empty(),
    })
}

/// A number is the sum of its eight bytes, each worth two hundred and fifty-six times as
/// much as the one behind it.
pub proof fn bytes_add_up_to_the_number(value: u64)
    ensures
        be_bytes(value).len() == 8,
        value == be_bytes(value)[0] * 0x100_0000_0000_0000 + be_bytes(value)[1] * 0x1_0000_0000_0000
            + be_bytes(value)[2] * 0x100_0000_0000 + be_bytes(value)[3] * 0x1_0000_0000
            + be_bytes(value)[4] * 0x100_0000 + be_bytes(value)[5] * 0x1_0000 + be_bytes(value)[6]
            * 0x100 + be_bytes(value)[7],
{
    assert(value == (((value >> 56u64) & 0xff) as u8) * 0x100_0000_0000_0000 + (((value >> 48u64)
        & 0xff) as u8) * 0x1_0000_0000_0000 + (((value >> 40u64) & 0xff) as u8) * 0x100_0000_0000
        + (((value >> 32u64) & 0xff) as u8) * 0x1_0000_0000 + (((value >> 24u64) & 0xff) as u8)
        * 0x100_0000 + (((value >> 16u64) & 0xff) as u8) * 0x1_0000 + (((value >> 8u64)
        & 0xff) as u8) * 0x100 + ((value & 0xff) as u8)) by (bit_vector);
}

/// The bytes of an identity are the provider's namespace and the repository's, each
/// behind the eight bytes of its length, those of the placement generation, and the
/// digest of the snapshot it is pinned to, if it is.
pub proof fn what_the_bytes_of_an_identity_hold(
    provider: Seq<char>,
    repository: Seq<char>,
    placement_generation: u64,
    digest: Option<Seq<char>>,
)
    ensures
        ({
            let first = vstd::utf8::encode_utf8(provider);
            let second = vstd::utf8::encode_utf8(repository);
            let pinned = if digest is Some {
                vstd::utf8::encode_utf8(digest->0)
            } else {
                Seq::empty()
            };
            cache_bytes(provider, repository, placement_generation, digest) == be_bytes(
                first.len() as u64,
            ) + first + be_bytes(second.len() as u64) + second + be_bytes(placement_generation)
                + pinned
        }),
{
    let first = vstd::utf8::encode_utf8(provider);
    let second = vstd::utf8::encode_utf8(repository);
    let pinned = if digest is Some {
        vstd::utf8::encode_utf8(digest->0)
    } else {
        Seq::empty()
    };
    assert(cache_bytes(provider, repository, placement_generation, digest) =~= be_bytes(
        first.len() as u64,
    ) + first + be_bytes(second.len() as u64) + second + be_bytes(placement_generation) + pinned);
}

proof fn lemma_number_bytes_differ(a: u64, b: u64)
    requires
        be_bytes(a) == be_bytes(b),
    ensures
        a == b,
{
    let x = be_bytes(a);
    let y = be_bytes(b);
    assert(x[0] == y[0] && x[1] == y[1] && x[2] == y[2] && x[3] == y[3] && x[4] == y[4] && x[5]
        == y[5] && x[6] == y[6] && x[7] == y[7]);
    assert(((a >> 56u64) & 0xff) as u8 == ((b >> 56u64) & 0xff) as u8 && ((a >> 48u64)
        & 0xff) as u8 == ((b >> 48u64) & 0xff) as u8 && ((a >> 40u64) & 0xff) as u8 == ((b
        >> 40u64) & 0xff) as u8 && ((a >> 32u64) & 0xff) as u8 == ((b >> 32u64) & 0xff) as u8
        && ((a >> 24u64) & 0xff) as u8 == ((b >> 24u64) & 0xff) as u8 && ((a >> 16u64) & 0xff) as u8
        == ((b >> 16u64) & 0xff) as u8 && ((a >> 8u64) & 0xff) as u8 == ((b >> 8u64) & 0xff) as u8
        && (a & 0xff) as u8 == (b & 0xff) as u8 ==> a == b) by (bit_vector);
}

proof fn lemma_frames_part(a: Seq<u8>, a_rest: Seq<u8>, b: Seq<u8>, b_rest: Seq<u8>)
    requires
        framed(a) + a_rest == framed(b) + b_rest,
        a.len() <= u64::MAX,
        b.len() <= u64::MAX,
    ensures
        a == b,
        a_rest == b_rest,
{
    let left = framed(a) + a_rest;
    let right = framed(b) + b_rest;
    assert(be_bytes(a.len() as u64) =~= left.subrange(0, 8));
    assert(be_bytes(b.len() as u64) =~= right.subrange(0, 8));
    lemma_number_bytes_differ(a.len() as u64, b.len() as u64);
    assert(a =~= left.subrange(8, 8 + a.len() as int));
    assert(b =~= right.subrange(8, 8 + b.len() as int));
    assert(a_rest =~= left.subrange(8 + a.len() as int, left.len() as int));
    assert(b_rest =~= right.subrange(8 + b.len() as int, right.len() as int));
}

proof fn lemma_text_has_bytes(text: Seq<char>)
    requires
        text.len() > 0,
    ensures
        vstd::utf8::encode_utf8(text).len() > 0,
{
    vstd::utf8::encode_utf8_decode_utf8(text);
    if vstd::utf8::encode_utf8(text).len() == 0 {
        vstd::utf8::encode_utf8_decode_utf8(Seq::<char>::empty());
        assert(vstd::utf8::encode_utf8(text) =~= vstd::utf8::encode_utf8(Seq::<char>::empty()));
    }
}

/// Identities that differ in a namespace, in the placement generation or in the
/// snapshot digest have different cache bytes; no digest is told apart from every
/// digest but the empty one.
pub proof fn cache_bytes_tell_identities_apart(
    provider: Seq<char>,
    repository: Seq<char>,
    placement_generation: u64,
    digest: Option<Seq<char>>,
    other_provider: Seq<char>,
    other_repository: Seq<char>,
    other_generation: u64,
    other_digest: Option<Seq<char>>,
)
    requires
        component_accepted(provider),
        component_accepted(repository),
        component_accepted(other_provider),
        component_accepted(other_repository),
        cache_bytes(provider, repository, placement_generation, digest) == cache_bytes(
            other_provider,
            other_repository,
            other_generation,
            other_digest,
        ),
    ensures
        provider == other_provider,
        repository == other_repository,
        placement_generation == other_generation,
        digest is Some && other_digest is Some ==> digest == other_digest,
        digest is Some && (digest->0).len() > 0 ==> other_digest == digest,
        other_digest is Some && (other_digest->0).len() > 0 ==> digest == other_digest,
{
    let p = vstd::utf8::encode_utf8(provider);
    let q = vstd::utf8::encode_utf8(other_provider);
    let r = vstd::utf8::encode_utf8(repository);
    let s = vstd::utf8::encode_utf8(other_repository);
    let d = match digest {
        Some(digest) => vstd::utf8::encode_utf8(digest),
        None => Seq::empty(),
    };
    let e = match other_digest {
        Some(digest) => vstd::utf8::encode_utf8(digest),
        None => Seq::empty(),
    };
    let g = be_bytes(placement_generation);
    let h = be_bytes(other_generation);
    assert(framed(p) + framed(r) + g + d =~= framed(p) + (framed(r) + (g + d)));
    assert(framed(q) + framed(s) + h + e =~= framed(q) + (framed(s) + (h + e)));
    lemma_frames_part(p, framed(r) + (g + d), q, framed(s) + (h + e));
    lemma_frames_part(r, g + d, s, h + e);
    assert(g =~= (g + d).subrange(0, 8));
    assert(h =~= (h + e).subrange(0, 8));
    lemma_number_bytes_differ(placement_generation, other_generation);
    assert(d =~= (g + d).subrange(8, (g + d).len() as int));
    assert(e =~= (h + e).subrange(8, (h + e).len() as int));
    vstd::utf8::encode_utf8_decode_utf8(provider);
    vstd::utf8::encode_utf8_decode_utf8(other_provider);
    vstd::utf8::encode_utf8_decode_utf8(repository);
    vstd::utf8::encode_utf8_decode_utf8(other_repository);
    if digest is Some && other_digest is Some {
        vstd::utf8::encode_utf8_decode_utf8(digest->0);
        vstd::utf8::encode_utf8_decode_utf8(other_digest->0);
    }
    if digest is Some && (digest->0).len() > 0 && other_digest is None {
        lemma_text_has_bytes(digest->0);
    }
    if other_digest is Some && (other_digest->0).len() > 0 && digest is None {
        lemma_text_has_bytes(other_digest->0);
    }
}

/// Objects of two identities whose cache bytes differ have different names before they
/// are hashed, whatever both names have around the identity.
pub proof fn names_around_identities_differ(
    before: Seq<u8>,
    identity: Seq<u8>,
    other: Seq<u8>,
    after: Seq<u8>,
)
    requires
        identity != other,
    ensures
        before + identity + after != before + other + after,
{
    let left = before + identity + after;
    let right = before + other + after;
    if left == right {
        assert(left.len() == right.len());
        assert(identity =~= left.subrange(
            before.len() as int,
            (before.len() + identity.len()) as int,
        ));
        assert(other =~= right.subrange(
            before.len() as int,
            (before.len() + other.len()) as int,
        ));
    }
}

/// No object of one pinned snapshot shares its cache name, before it is hashed, with
/// the same object of another snapshot of the same repository or of none: only the
/// empty digest counts as none.
pub proof fn snapshots_share_no_cache_names(
    one: RepositoryIdentity,
    other: RepositoryIdentity,
    before: Seq<u8>,
    after: Seq<u8>,
)
    requires
        component_accepted(one.provider()),
        component_accepted(one.repository()),
        component_accepted(other.provider()),
        component_accepted(other.repository()),
        one.digest() is Some && (one.digest()->0).len() > 0,
        other.digest() != one.digest(),
    ensures
        before + one.cache_identity() + after != before + other.cache_identity() + after,
{
    if one.cache_identity() == other.cache_identity() {
        cache_bytes_tell_identities_apart(
            one.provider(),
            one.repository(),
            one.placement(),
            one.digest(),
            other.provider(),
            other.repository(),
            other.placement(),
            other.digest(),
        );
    }
    names_around_identities_differ(before, one.cache_identity(), other.cache_identity(), after);
}

/// An incremental BLAKE3 hash.
#[verifier::external_type_specification]
#[verifier::external_body]
pub struct ExHasher(blake3::Hasher);

/// The bytes that a hasher has taken in.
pub uninterp spec fn hasher_input(hasher: blake3::Hasher) -> Seq<u8>;

/// Whether a hasher computes the ordinary hash of its input: it has no key, no
/// key-derivation context, and begins at the start of its input.
pub uninterp spec fn hasher_is_plain(hasher: blake3::Hasher) -> bool;

/// The BLAKE3 hash of a byte string.
pub uninterp spec fn blake3_hash(bytes: Seq<u8>) -> Seq<u8>;

/// `blake3::Hasher::new` makes an ordinary hasher that has taken in nothing.
#[verifier::external_body]
fn new_hasher() -> (result: blake3::Hasher)
    ensures
        hasher_is_plain(result),
        hasher_input(result) == Seq::<u8>::empty(),
{
    blake3::Hasher::new()
}

/// `blake3::Hasher::update` takes in further bytes behind those taken in before.
#[verifier::external_body]
fn update_hasher(hasher: &mut blake3::Hasher, bytes: &[u8])
    requires
        hasher_is_plain(*old(hasher)),
    ensures
        hasher_is_plain(*final(hasher)),
        hasher_input(*final(hasher)) == hasher_input(*old(hasher)) + bytes@,
{
    hasher.update(bytes);
}

/// `blake3::Hasher::finalize` gives the hash of all bytes taken in.
#[verifier::external_body]
fn finalize_hasher(hasher: &blake3::Hasher) -> (result: [u8; 32])
    requires
        hasher_is_plain(*hasher),
    ensures
        result@ == blake3_hash(hasher_input(*hasher)),
{
    *hasher.finalize().as_bytes()
}

/// The hash of a cache key that is put together piece by piece.
pub struct CacheKeyHasher {
    inner: blake3::Hasher,
}

impl CacheKeyHasher {
    #[verifier::type_invariant]
    spec fn plain(self) -> bool {
        hasher_is_plain(self.inner)
    }

    /// The bytes put into the key so far.
    pub closed spec fn input(self) -> Seq<u8> {
        hasher_input(self.inner)
    }

    /// A key without content.
    pub fn new() -> (result: CacheKeyHasher)
        ensures
            result.input() == Seq::<u8>::empty(),
    {
        CacheKeyHasher { inner: new_hasher() }
    }

    /// The same key with more content.
    pub fn with(self, bytes: &[u8]) -> (result: CacheKeyHasher)
        ensures
            result.input() == self.input() + bytes@,
    {
        proof {
            use_type_invariant(&self);
        }
        let mut inner = self.inner;
        update_hasher(&mut inner, bytes);
        CacheKeyHasher { inner }
    }

    /// The hash of the key's content.
    pub fn digest(&self) -> (result: [u8; 32])
        ensures
            result@ == blake3_hash(self.input()),
    {
        proof {
            use_type_invariant(self);
        }
        finalize_hasher(&self.inner)
    }
}

/// A number in decimal digits.
pub open spec fn decimal(value: nat) -> Seq<char>
    decreases value,
{
    if value < 10 {
        seq![(48 + value) as char]
    } else {
        decimal(value / 10).push((48 + value % 10) as char)
    }
}

/// A number is written with its last digit last, behind the number of its tens if there
/// are any.
pub proof fn how_a_number_is_written(tens: nat, digit: nat)
    requires
        digit < 10,
    ensures
        decimal(digit) == seq![(48 + digit) as char],
        tens > 0 ==> decimal(10 * tens + digit) == decimal(tens) + seq![(48 + digit) as char],
{
    if tens > 0 {
        assert((10 * tens + digit) / 10 == tens);
        assert((10 * tens + digit) % 10 == digit);
        assert(decimal(10 * tens + digit) =~= decimal(tens) + seq![(48 + digit) as char]);
    }
}

fn append_digit(output: &mut String, digit: u64)
    requires
        digit < 10,
    ensures
        final(output)@ == old(output)@.push((48 + digit) as char),
{
    proof {
        reveal_strlit("0");
        reveal_strlit("1");
        reveal_strlit("2");
        reveal_strlit("3");
        reveal_strlit("4");
        reveal_strlit("5");
        reveal_strlit("6");
        reveal_strlit("7");
        reveal_strlit("8");
        reveal_strlit("9");
    }
    let text = if digit == 0 {
        "0"
    } else if digit == 1 {
        "1"
    } else if digit == 2 {
        "2"
    } else if digit == 3 {
        "3"
    } else if digit == 4 {
        "4"
    } else if digit == 5 {
        "5"
    } else if digit == 6 {
        "6"
    } else if digit == 7 {
        "7"
    } else if digit == 8 {
        "8"
    } else {
        "9"
    };
    assert(text@ =~= seq![(48 + digit) as char]);
    output.append(text);
    assert(output@ =~= old(output)@.push((48 + digit) as char));
}

pub(crate) fn append_decimal(output: &mut String, value: u64)
    ensures
        final(output)@ == old(output)@ + decimal(value as nat),
    decreases value,
{
    if value >= 10 {
        append_decimal(output, value / 10);
    }
    append_digit(output, value % 10);
    assert(output@ =~= old(output)@ + decimal(value as nat));
}

impl RepositoryIdentity {
    pub closed spec fn provider(self) -> Seq<char> {
        self.provider_namespace@
    }

    pub closed spec fn repository(self) -> Seq<char> {
        self.repository_namespace@
    }

    pub closed spec fn placement(self) -> u64 {
        self.placement_generation
    }

    /// The digest of the snapshot that the identity is pinned to.
    pub closed spec fn digest(self) -> Option<Seq<char>> {
        match self.snapshot_digest {
            Some(digest) => Some(digest@),
            None => None,
        }
    }

    /// Both namespaces are acceptable and a placement has been chosen.
    #[verifier::type_invariant]
    spec fn valid(self) -> bool {
        &&& component_accepted(self.provider_namespace@)
        &&& component_accepted(self.repository_namespace@)
        &&& self.placement_generation != 0
    }

    /// Validate identity components used by cache and single-flight keys.
    pub fn new(
        provider_namespace: &str,
        repository_namespace: &str,
        placement_generation: u64,
    ) -> (result: Result<RepositoryIdentity, Error>)
        ensures
            match result {
                Ok(identity) => {
                    &&& component_accepted(provider_namespace@)
                    &&& component_accepted(repository_namespace@)
                    &&& placement_generation != 0
                    &&& identity.provider() == provider_namespace@
                    &&& identity.repository() == repository_namespace@
                    &&& identity.placement() == placement_generation
                    &&& identity.digest() is None
                },
                Err(error) => if !component_accepted(provider_namespace@) {
                    error == (Error::InvalidRepositoryIdentity { component: "provider namespace" })
                } else if !component_accepted(repository_namespace@) {
                    error == (Error::InvalidRepositoryIdentity {
                        component: "repository namespace",
                    })
                } else {
                    placement_generation == 0 && error == (Error::InvalidRepositoryIdentity {
                        component: "placement generation",
                    })
                },
            },
    {
        validate_identity_component("provider namespace", provider_namespace)?;
        validate_identity_component("repository namespace", repository_namespace)?;
        if placement_generation == 0 {
            return Err(Error::InvalidRepositoryIdentity { component: "placement generation" });
        }
        Ok(
            RepositoryIdentity {
                provider_namespace: provider_namespace.to_owned(),
                repository_namespace: repository_namespace.to_owned(),
                placement_generation,
                snapshot_digest: None,
            },
        )
    }

    /// Return the catalog placement generation included in cache identity.
    pub fn placement_generation(&self) -> (result: u64)
        ensures
            result == self.placement(),
            result != 0,
    {
        proof {
            use_type_invariant(self);
        }
        self.placement_generation
    }

    /// The same identity, pinned to a snapshot. Two snapshots of one placement may
    /// hold different packs under one generation, so caches must not share them.
    pub fn pinned_to(self, snapshot_digest: String) -> (result: RepositoryIdentity)
        ensures
            result.provider() == self.provider(),
            result.repository() == self.repository(),
            result.placement() == self.placement(),
            result.digest() == Some(snapshot_digest@),
    {
        proof {
            use_type_invariant(&self);
        }
        RepositoryIdentity {
            provider_namespace: self.provider_namespace,
            repository_namespace: self.repository_namespace,
            placement_generation: self.placement_generation,
            snapshot_digest: Some(snapshot_digest),
        }
    }

    /// The bytes by which caches tell identities apart.
    pub open spec fn cache_identity(self) -> Seq<u8> {
        cache_bytes(self.provider(), self.repository(), self.placement(), self.digest())
    }

    /// Put the identity into a cache key.
    pub fn hash_cache_identity(&self, hash: CacheKeyHasher) -> (result: CacheKeyHasher)
        ensures
            result.input() == hash.input() + self.cache_identity(),
    {
        let provider = self.provider_namespace.as_str().as_bytes();
        let repository = self.repository_namespace.as_str().as_bytes();
        let mut bytes: Vec<u8> = number_bytes(provider.len() as u64);
        append_bytes(&mut bytes, provider);
        append_bytes(&mut bytes, number_bytes(repository.len() as u64).as_slice());
        append_bytes(&mut bytes, repository);
        append_bytes(&mut bytes, number_bytes(self.placement_generation).as_slice());
        if let Some(digest) = &self.snapshot_digest {
            append_bytes(&mut bytes, digest.as_str().as_bytes());
        }
        assert(bytes@ =~= self.cache_identity());
        hash.with(bytes.as_slice())
    }

    /// What may be told of the identity: nothing of its namespaces.
    pub open spec fn description(self) -> Seq<char> {
        "RepositoryIdentity { provider_namespace: \"<redacted>\", repository_namespace: \"<redacted>\", placement_generation: "@
            + decimal(self.placement() as nat) + " }"@
    }

    /// Describe the identity without its namespaces.
    pub fn redacted(&self) -> (result: String)
        ensures
            result@ == self.description(),
    {
        let mut result = String::new();
        result.append(
            "RepositoryIdentity { provider_namespace: \"<redacted>\", repository_namespace: \"<redacted>\", placement_generation: ",
        );
        append_decimal(&mut result, self.placement_generation);
        result.append(" }");
        assert(result@ =~= self.description());
        result
    }
}

/// Of an identity only the placement generation is told, in decimal digits and in its
/// place; the namespaces are named and withheld.
pub proof fn what_is_told_of_an_identity(identity: RepositoryIdentity)
    ensures
        identity.description()
            == "RepositoryIdentity { provider_namespace: \"<redacted>\", repository_namespace: \"<redacted>\", placement_generation: "@
            + decimal(identity.placement() as nat) + " }"@,
{
}

/// Identities that differ only in what is not to be told are described alike.
pub proof fn description_hides_namespaces(a: RepositoryIdentity, b: RepositoryIdentity)
    requires
        a.placement() == b.placement(),
    ensures
        a.description() == b.description(),
{
}

impl Clone for RepositoryIdentity {
    fn clone(&self) -> (result: RepositoryIdentity)
        ensures
            result.provider() == self.provider(),
            result.repository() == self.repository(),
            result.placement() == self.placement(),
            result.digest() == self.digest(),
    {
        proof {
            use_type_invariant(self);
        }
        RepositoryIdentity {
            provider_namespace: self.provider_namespace.clone(),
            repository_namespace: self.repository_namespace.clone(),
            placement_generation: self.placement_generation,
            snapshot_digest: match &self.snapshot_digest {
                Some(digest) => Some(digest.clone()),
                None => None,
            },
        }
    }
}

} // verus!
