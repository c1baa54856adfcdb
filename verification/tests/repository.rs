use crab_remote_git::error::{Error, RepositoryStateError, RevisionError};
use crab_remote_git::hex::parse_oid;
use crab_remote_git::identity::{number_bytes, CacheKeyHasher, RepositoryIdentity};
use crab_remote_git::inventory::{parse_inventory, PackInventory, PackManifestEntry};
use crab_remote_git::limits::{Duration, ObjectLimits, OperationLimits, RepositoryOptions};
use crab_remote_git::model::{AnnotatedTag, Commit, GitLocatorCoverage, Signature};
use crab_remote_git::names::{are_ascending, find_named};
use crab_remote_git::oid::{MerkleHash, ObjectId, ObjectKind};
use crab_remote_git::open::{
    locator_error, optional_closure, optional_graph, same_etag, LocatorDecision, ManifestFacts, OpenHandshake,
    OpenStep,
};
use crab_remote_git::peel::{reference_root, PeelObject, PeelWalk, TagPeelState};
use crab_remote_git::reach::{ReachRequest, ReachWalk};
use crab_remote_git::refs::{
    select_reference, ManifestRef, ManifestRefs, PeeledRef, RepositoryRef, RepositoryRefs,
};
use crab_remote_git::repository::{
    commit_start, resolved, OperationContext, RemoteGitRepository, ResolveStep, Revision,
};
use crab_remote_git::visibility::check_visible_tips;
use tokio_util::sync::CancellationToken;

const ONES: &str = "1111111111111111111111111111111111111111";
const TWOS: &str = "2222222222222222222222222222222222222222";

fn repeated(byte: u8) -> ObjectId {
    ObjectId {
        first: u32::from_be_bytes([byte; 4]),
        second: u32::from_be_bytes([byte; 4]),
        third: u32::from_be_bytes([byte; 4]),
        fourth: u32::from_be_bytes([byte; 4]),
        fifth: u32::from_be_bytes([byte; 4]),
    }
}

fn hash(low: u128) -> MerkleHash {
    MerkleHash { high: 7, low }
}

fn manifest_ref(name: &str, well_formed: bool, target: &str) -> ManifestRef {
    ManifestRef {
        name: name.to_owned(),
        well_formed,
        target: target.to_owned(),
    }
}

fn peeled_ref(name: &str, target: &str) -> PeeledRef {
    PeeledRef {
        name: name.to_owned(),
        target: target.to_owned(),
    }
}

fn manifest_refs(refs: Vec<ManifestRef>) -> ManifestRefs {
    ManifestRefs {
        head: "refs/heads/main".to_owned(),
        head_well_formed: true,
        refs,
        peeled_refs: Vec::new(),
    }
}

fn main_manifest(generation: u64, target: &str) -> ManifestFacts {
    ManifestFacts {
        generation,
        pack_index_hash: Some(hash(100)),
        refs: manifest_refs(vec![manifest_ref("refs/heads/main", true, target)]),
    }
}

fn pack(id: u128) -> PackManifestEntry {
    PackManifestEntry {
        pack_id: Some(hash(id)),
        object_count: 1,
        size: 128,
    }
}

fn no_refs() -> RepositoryRefs {
    RepositoryRefs {
        head: None,
        unborn_head: None,
        entries: Vec::new(),
    }
}

fn reference(name: &str, target: ObjectId, peeled: Option<ObjectId>) -> RepositoryRef {
    RepositoryRef {
        name: name.to_owned(),
        target,
        peeled,
    }
}

fn identity() -> RepositoryIdentity {
    RepositoryIdentity::new("memory", "org/repo", 1).expect("identity")
}

/// Drive the handshake against one manifest and one locator state.
fn open_with(
    manifest: &ManifestFacts,
    observed: Option<GitLocatorCoverage>,
) -> (Result<RemoteGitRepository<()>, Error>, usize) {
    let mut handshake = OpenHandshake::new();
    let mut reads = 0;
    loop {
        reads += 1;
        let step = match handshake.accept_manifest(manifest, 0) {
            Ok(step) => step,
            Err(error) => return (Err(error), reads),
        };
        let inventory = parse_inventory(&[pack(1)]).expect("inventory");
        if matches!(step, OpenStep::Locate { .. }) {
            let decision = handshake.accept_locator(observed);
            if decision == LocatorDecision::Retry {
                continue;
            }
            if let Some(error) = locator_error(decision) {
                return (Err(error), reads);
            }
        }
        let repository = RemoteGitRepository::open(
            1,
            identity(),
            RepositoryOptions::default(),
            "digest".to_owned(),
            "etag-1".to_owned(),
            &handshake,
            step,
            inventory,
            None,
        );
        return (repository, reads);
    }
}

fn coverage(generation: u64) -> Option<GitLocatorCoverage> {
    Some(GitLocatorCoverage {
        generation,
        pack_index_hash: hash(100),
    })
}

#[test]
fn identity_is_exact_for_equality_but_redacted_for_debug() {
    let first = RepositoryIdentity::new("provider-a", "repository-a", 1).expect("identity");
    let different = RepositoryIdentity::new("provider-a", "repository-a", 2).expect("identity");
    assert!(first != different);
    let debug = first.redacted();
    assert!(!debug.contains("provider-a"));
    assert!(!debug.contains("repository-a"));
}

#[test]
fn redacted_descriptions_are_exact() {
    assert_eq!(
        identity().redacted(),
        "RepositoryIdentity { provider_namespace: \"<redacted>\", repository_namespace: \
         \"<redacted>\", placement_generation: 1 }"
    );
    let (repository, _) = open_with(&main_manifest(10, ONES), coverage(10));
    assert_eq!(
        repository.expect("open").redacted(),
        "RemoteGitRepository { identity: RepositoryIdentity { provider_namespace: \
         \"<redacted>\", repository_namespace: \"<redacted>\", placement_generation: 1 }, \
         generation: 10, pack_count: 1 }"
    );
}

#[test]
fn identity_components_are_checked_in_order() {
    let rejected = |provider: &str, repository: &str, placement: u64| {
        RepositoryIdentity::new(provider, repository, placement)
            .err()
            .expect("rejected identity")
    };
    assert_eq!(
        rejected("", "", 0),
        Error::InvalidRepositoryIdentity {
            component: "provider namespace"
        }
    );
    assert_eq!(
        rejected("p", "a\tb", 0),
        Error::InvalidRepositoryIdentity {
            component: "repository namespace"
        }
    );
    assert_eq!(
        rejected("p", "\u{80}", 1),
        Error::InvalidRepositoryIdentity {
            component: "repository namespace"
        }
    );
    assert_eq!(
        rejected("p", "r", 0),
        Error::InvalidRepositoryIdentity {
            component: "placement generation"
        }
    );
    assert!(RepositoryIdentity::new(&"p".repeat(1_024), "r", 9).is_ok());
    assert!(RepositoryIdentity::new(&"p".repeat(1_025), "r", 9).is_err());
    assert!(RepositoryIdentity::new(&"\u{e9}".repeat(512), "r", 9).is_ok());
    assert!(RepositoryIdentity::new(&"\u{e9}".repeat(513), "r", 9).is_err());
    assert_eq!(identity().placement_generation(), 1);
}

#[test]
fn cache_keys_hash_the_exact_identity_bytes() {
    let key = identity()
        .hash_cache_identity(CacheKeyHasher::new().with(b"prefix"))
        .digest();
    let mut expected = b"prefix".to_vec();
    expected.extend_from_slice(&6u64.to_be_bytes());
    expected.extend_from_slice(b"memory");
    expected.extend_from_slice(&8u64.to_be_bytes());
    expected.extend_from_slice(b"org/repo");
    expected.extend_from_slice(&1u64.to_be_bytes());
    assert_eq!(key, *blake3::hash(&expected).as_bytes());

    let pinned = identity().pinned_to("digest".to_owned());
    assert!(pinned != identity());
    assert!(pinned == pinned.clone());
    expected.extend_from_slice(b"digest");
    assert_eq!(
        pinned
            .hash_cache_identity(CacheKeyHasher::new().with(b"prefix"))
            .digest(),
        *blake3::hash(&expected).as_bytes()
    );
    assert_eq!(number_bytes(0x0102_0304_0506_0708), vec![1, 2, 3, 4, 5, 6, 7, 8]);
}

#[test]
fn cache_keys_tell_shifted_namespaces_apart() {
    let key = |provider: &str, repository: &str| {
        RepositoryIdentity::new(provider, repository, 1)
            .expect("identity")
            .hash_cache_identity(CacheKeyHasher::new())
            .digest()
    };
    assert_ne!(key("ab", "c"), key("a", "bc"));
    assert_eq!(key("ab", "c"), key("ab", "c"));
}

#[test]
fn repository_options_reject_each_zero_bound() {
    let object = ObjectLimits {
        max_object_bytes: 0,
        ..ObjectLimits::default()
    };
    assert!(matches!(
        RepositoryOptions::new(object, OperationLimits::default()),
        Err(Error::InvalidLimit {
            name: "max_object_bytes"
        })
    ));

    let operation = OperationLimits {
        max_storage_requests: 0,
        ..OperationLimits::default()
    };
    assert!(matches!(
        RepositoryOptions::new(ObjectLimits::default(), operation),
        Err(Error::InvalidLimit {
            name: "max_storage_requests"
        })
    ));

    let operation = OperationLimits {
        max_duration: Duration { nanos: 0 },
        ..OperationLimits::default()
    };
    assert!(matches!(
        RepositoryOptions::new(ObjectLimits::default(), operation),
        Err(Error::InvalidLimit {
            name: "operation duration"
        })
    ));
}

#[test]
fn default_limits_are_the_documented_ones() {
    let options = RepositoryOptions::default();
    let object = options.object_limits();
    assert_eq!(object.max_packed_entry_bytes, 64 * 1024 * 1024);
    assert_eq!(object.max_inflated_entry_bytes, 64 * 1024 * 1024);
    assert_eq!(object.max_object_bytes, 64 * 1024 * 1024);
    assert_eq!(object.max_pack_index_bytes, 128 * 1024 * 1024);
    assert_eq!(object.max_commit_graph_bytes, 128 * 1024 * 1024);
    assert_eq!(object.max_delta_depth, 128);
    assert_eq!(object.max_tag_depth, 32);
    let operation = options.operation_limits();
    assert_eq!(operation.max_duration, Duration::from_secs(300));
    assert_eq!(operation.max_logical_objects, 10_000);
    assert_eq!(operation.max_storage_requests, 20_000);
    assert_eq!(operation.max_fetched_bytes, 512 * 1024 * 1024);
    assert_eq!(operation.max_inflated_bytes, 512 * 1024 * 1024);
    assert_eq!(operation.max_depth, 1_024);
    assert_eq!(operation.max_entries, 100_000);
    assert_eq!(operation.max_history_commits, 10_000);
    assert_eq!(operation.max_diff_input_bytes, 32 * 1024 * 1024);
    assert_eq!(operation.max_diff_output_bytes, 8 * 1024 * 1024);
    assert_eq!(operation.max_blame_lines, 100_000);
    assert_eq!(operation.max_blame_comparison_cells, 4_000_000);
    assert_eq!(operation.max_archive_entries, 100_000);
    assert_eq!(operation.max_archive_bytes, 2 * 1024 * 1024 * 1024);
    assert_eq!(operation.max_response_bytes, 2 * 1024 * 1024 * 1024);
    assert!(RepositoryOptions::new(object, operation).is_ok());
}

#[test]
fn durations_that_cannot_be_doubled_are_refused() {
    let with = |nanos: u128| {
        RepositoryOptions::new(
            ObjectLimits::default(),
            OperationLimits {
                max_duration: Duration { nanos },
                ..OperationLimits::default()
            },
        )
    };
    assert!(with(1).is_ok());
    let largest: u128 = u64::MAX as u128 * 1_000_000_000 + 999_999_999;
    let last_usable = largest / 2 - 1_000_000_000;
    assert!(with(last_usable).is_ok());
    assert_eq!(
        with(last_usable + 1).err(),
        Some(Error::InvalidLimit {
            name: "operation duration"
        })
    );
}

#[test]
fn manifest_refs_reject_invalid_names_and_orphan_peeled_targets() {
    let invalid = manifest_refs(vec![manifest_ref("refs/heads/bad..name", false, ONES)]);
    assert!(matches!(
        RepositoryRefs::try_from(&invalid),
        Err(Error::RepositoryState {
            reason: RepositoryStateError::InvalidReference
        })
    ));

    let mut orphan = manifest_refs(Vec::new());
    orphan.peeled_refs.push(peeled_ref("refs/tags/missing", ONES));
    assert!(matches!(
        RepositoryRefs::try_from(&orphan),
        Err(Error::RepositoryState {
            reason: RepositoryStateError::OrphanPeeledReference
        })
    ));
}

#[test]
fn manifest_refs_are_read_with_their_head() {
    let mut manifest = manifest_refs(vec![
        manifest_ref("refs/heads/main", true, ONES),
        manifest_ref("refs/tags/v1", true, TWOS),
    ]);
    manifest.peeled_refs.push(peeled_ref("refs/tags/v1", ONES));
    let refs = RepositoryRefs::try_from(&manifest).expect("references");
    assert_eq!(refs.entries.len(), 2);
    assert_eq!(refs.entries[1].target, repeated(0x22));
    assert_eq!(refs.entries[1].peeled, Some(repeated(0x11)));
    let head = refs.head.as_ref().expect("head");
    assert_eq!(head.name, "refs/heads/main");
    assert_eq!(head.target, repeated(0x11));
    assert_eq!(refs.unborn_head, None);
    assert!(!refs.is_empty());
    assert!(refs.find("refs/tags/v1").is_some());
    assert!(refs.find("refs/tags/v2").is_none());
    assert_eq!(refs.tips(), vec![repeated(0x11), repeated(0x11)]);

    let unborn = RepositoryRefs::try_from(&manifest_refs(Vec::new())).expect("no references");
    assert!(unborn.is_empty());
    assert_eq!(unborn.head, None);
    assert_eq!(unborn.unborn_head.as_deref(), Some("refs/heads/main"));
}

#[test]
fn peeled_objects_are_joined_to_their_references() {
    let names: Vec<String> = (0..40).map(|at| format!("refs/tags/v{at:02}")).collect();
    let manifest = |order: &[usize]| {
        let mut manifest = manifest_refs(
            order
                .iter()
                .map(|at| manifest_ref(&names[*at], true, ONES))
                .collect(),
        );
        manifest.head = names[3].clone();
        manifest.peeled_refs = order
            .iter()
            .filter(|at| *at % 3 == 0)
            .map(|at| peeled_ref(&names[*at], TWOS))
            .collect();
        manifest
    };
    let ascending: Vec<usize> = (0..40).collect();
    let shuffled: Vec<usize> = (0..40).map(|at| at * 7 % 40).collect();
    for order in [&ascending, &shuffled] {
        let refs = RepositoryRefs::try_from(&manifest(order)).expect("references");
        assert_eq!(refs.head.as_ref().map(|head| head.name.as_str()), Some("refs/tags/v03"));
        for (at, found) in order.iter().zip(&refs.entries) {
            assert_eq!(found.name, names[*at]);
            assert_eq!(found.target, repeated(0x11));
            assert_eq!(found.peeled, (at % 3 == 0).then_some(repeated(0x22)));
        }
        let mut orphan = manifest(order);
        orphan.peeled_refs.push(peeled_ref("refs/tags/v40", TWOS));
        assert_eq!(
            RepositoryRefs::try_from(&orphan).err(),
            Some(Error::RepositoryState {
                reason: RepositoryStateError::OrphanPeeledReference
            })
        );
        let mut unreadable = manifest(order);
        unreadable.peeled_refs[5].target = "tree".to_owned();
        assert_eq!(
            RepositoryRefs::try_from(&unreadable).err(),
            Some(Error::RepositoryState {
                reason: RepositoryStateError::InvalidContentIdentity
            })
        );
        let mut headless = manifest(order);
        headless.head = "refs/tags/v4".to_owned();
        assert_eq!(
            RepositoryRefs::try_from(&headless).err(),
            Some(Error::RepositoryState {
                reason: RepositoryStateError::HeadDoesNotResolve
            })
        );
    }
}

#[test]
fn names_are_found_first_and_by_bytes() {
    let twice = vec![
        peeled_ref("b", ONES),
        peeled_ref("a", ONES),
        peeled_ref("a", TWOS),
    ];
    assert!(!are_ascending(&twice));
    assert_eq!(find_named(&twice, false, &"a".to_owned()), Some(1));
    assert_eq!(find_named(&twice, false, &"c".to_owned()), None);
    let ordered: Vec<PeeledRef> = ["", "a", "a/b", "a0", "b", "\u{e9}", "\u{10000}"]
        .into_iter()
        .map(|name| peeled_ref(name, ONES))
        .collect();
    assert!(are_ascending(&ordered));
    for (at, entry) in ordered.iter().enumerate() {
        assert_eq!(find_named(&ordered, true, &entry.name), Some(at));
    }
    for absent in ["a.", "a/", "a1", "c", "\u{ffff}", "\u{10001}"] {
        assert_eq!(find_named(&ordered, true, &absent.to_owned()), None);
    }
    assert!(are_ascending(&Vec::<PeeledRef>::new()));
    assert!(!are_ascending(&vec![peeled_ref("a", ONES), peeled_ref("a", ONES)]));
}

#[test]
fn identities_take_twenty_bytes_and_sort_by_them() {
    assert_eq!(std::mem::size_of::<ObjectId>(), 20);
    let texts = [
        "0000000000000000000000000000000000000001",
        "00000000000000000000000000000001ffffffff",
        "000000000000000000000001ffffffffffffffff",
        "0000000000000001ffffffffffffffffffffffff",
        "00000001ffffffffffffffffffffffffffffffff",
        "ffffffffffffffffffffffffffffffffffffffff",
    ];
    let identities: Vec<ObjectId> = texts
        .iter()
        .map(|text| parse_oid(text).expect("identity"))
        .collect();
    for (i, left) in identities.iter().enumerate() {
        for (j, right) in identities.iter().enumerate() {
            assert_eq!(left.is_before(right), i < j);
            assert_eq!(left < right, i < j);
        }
    }
}

#[test]
fn manifest_refs_report_each_fault() {
    let fault = |refs: ManifestRefs| RepositoryRefs::try_from(&refs).err().expect("fault");
    let state = |reason| Error::RepositoryState { reason };
    assert_eq!(
        fault(manifest_refs(vec![manifest_ref("refs/heads/other", true, ONES)])),
        state(RepositoryStateError::HeadDoesNotResolve)
    );
    assert_eq!(
        fault(manifest_refs(vec![manifest_ref("refs/heads/main", true, "xyz")])),
        state(RepositoryStateError::InvalidContentIdentity)
    );
    assert_eq!(
        fault(manifest_refs(vec![manifest_ref("heads/main", true, ONES)])),
        state(RepositoryStateError::InvalidReference)
    );
    let mut refs = manifest_refs(Vec::new());
    refs.head = "main".to_owned();
    assert_eq!(fault(refs), state(RepositoryStateError::InvalidReference));
    let mut refs = manifest_refs(Vec::new());
    refs.head_well_formed = false;
    assert_eq!(fault(refs), state(RepositoryStateError::InvalidReference));
}

#[test]
fn short_ref_resolution_rejects_ambiguity_and_abbreviated_oid_fallback() {
    let oid = parse_oid("1111111111111111111111111111111111111111").expect("OID");
    let refs = RepositoryRefs {
        head: None,
        unborn_head: None,
        entries: vec![
            reference("refs/heads/release", oid, None),
            reference("refs/tags/release", oid, None),
        ],
    };
    assert!(matches!(
        select_reference(&refs, "release", true),
        Err(Error::Revision {
            reason: RevisionError::AmbiguousReference
        })
    ));
    assert!(matches!(
        select_reference(&no_refs(), "deadbeef", true),
        Err(Error::Revision {
            reason: RevisionError::AbbreviatedObjectId
        })
    ));
}

#[test]
fn references_are_selected_by_full_and_short_names() {
    let refs = RepositoryRefs {
        head: None,
        unborn_head: None,
        entries: vec![
            reference("refs/heads/main", repeated(1), None),
            reference("refs/tags/v1", repeated(2), Some(repeated(1))),
        ],
    };
    let target = |name: &str| select_reference(&refs, name, true).map(|found| found.target);
    assert_eq!(target("main"), Ok(repeated(1)));
    assert_eq!(target("v1"), Ok(repeated(2)));
    assert_eq!(target("refs/tags/v1"), Ok(repeated(2)));
    assert_eq!(
        target("refs/heads/v1"),
        Err(Error::Revision {
            reason: RevisionError::NotFound
        })
    );
    assert_eq!(
        target(&"a".repeat(64)),
        Err(Error::UnsupportedObjectFormat)
    );
    assert_eq!(
        target(&"a".repeat(40)),
        Err(Error::Revision {
            reason: RevisionError::NotFound
        })
    );
    assert_eq!(
        target(&"a".repeat(39)),
        Err(Error::Revision {
            reason: RevisionError::AbbreviatedObjectId
        })
    );
    assert_eq!(
        select_reference(&refs, "main", false).err(),
        Some(Error::Revision {
            reason: RevisionError::InvalidReference
        })
    );
}

#[test]
fn object_identities_are_read_from_forty_digits() {
    assert_eq!(
        parse_oid("000102030405060708090a0b0c0d0e0f10111213"),
        Ok(ObjectId {
            first: 0x0001_0203,
            second: 0x0405_0607,
            third: 0x0809_0a0b,
            fourth: 0x0c0d_0e0f,
            fifth: 0x1011_1213,
        })
    );
    assert_eq!(
        parse_oid("ABCDEFabcdef0000000000000000000000000001"),
        Ok(ObjectId {
            first: 0xabcd_efab,
            second: 0xcdef_0000,
            third: 0,
            fourth: 0,
            fifth: 1,
        })
    );
    for wrong in ["", "11", &"1".repeat(39), &"1".repeat(41), &"1".repeat(64), &"g".repeat(40)] {
        assert_eq!(
            parse_oid(wrong),
            Err(Error::RepositoryState {
                reason: RepositoryStateError::InvalidContentIdentity
            })
        );
    }
}

#[test]
fn empty_manifest_opens_without_inventing_refs_or_locator_state() {
    let manifest = ManifestFacts {
        generation: 0,
        pack_index_hash: None,
        refs: manifest_refs(Vec::new()),
    };
    let (repository, _) = open_with(&manifest, None);
    let repository = repository.expect("open empty repository");
    assert!(repository.refs().is_empty());
    assert_eq!(repository.pack_count(), 0);
    assert_eq!(repository.catalog_visibility_available(), Some(true));
    assert_eq!(repository.coverage(), None);
    assert_eq!(repository.single_pack_inventory(), None);
    assert_eq!(
        repository.catalog_visibility_index(),
        Err(Error::EmptyRepository)
    );
    assert_eq!(repository.visibility_index(), Ok(None));
    assert_eq!(repository.rebuild_visibility_index(), None);
    assert_eq!(
        repository.snapshot(&commit(repeated(1), Vec::new())).err(),
        Some(Error::EmptyRepository)
    );
    assert_eq!(
        repository.snapshot_start(&repository.operation()),
        Err(Error::EmptyRepository)
    );
}

#[test]
fn consistent_manifest_inventory_and_locator_open_one_generation() {
    let (repository, reads) = open_with(&main_manifest(1, ONES), coverage(1));
    let repository = repository.expect("open repository");
    assert_eq!(repository.generation(), 1);
    assert_eq!(repository.pack_count(), 1);
    assert_eq!(repository.catalog_visibility_available(), None);
    assert_eq!(reads, 1);
    assert_eq!(repository.git_validation_digest(), "digest");
    assert_eq!(
        repository.single_pack_inventory().map(|entry| entry.pack_id),
        Some(hash(1))
    );
    assert_eq!(repository.catalog_visibility_index().ok(), coverage(1));
    assert_eq!(repository.visibility_index(), Ok(coverage(1)));
    assert_eq!(repository.rebuild_visibility_index(), Some(hash(100)));
    assert_eq!(
        repository.commits_reachable_from(&[], &[], &CancellationToken::new()),
        Ok(None)
    );
}

#[test]
fn stale_and_absent_locator_states_are_retryable_and_diagnostic() {
    let (stale, _) = open_with(&main_manifest(2, ONES), coverage(1));
    assert!(matches!(
        stale.err(),
        Some(Error::RepositoryIndexing {
            observed: Some(1),
            required: 2
        })
    ));

    let (absent, _) = open_with(&main_manifest(1, ONES), None);
    assert!(matches!(
        absent.err(),
        Some(Error::RepositoryIndexing {
            observed: None,
            required: 1
        })
    ));
}

#[test]
fn newer_locator_retries_the_full_handshake_once_then_fails_consistency() {
    let (repository, reads) = open_with(&main_manifest(1, ONES), coverage(2));
    assert!(matches!(
        repository.err(),
        Some(Error::RepositoryState {
            reason: RepositoryStateError::InconsistentGeneration
        })
    ));
    assert_eq!(reads, 2);
}

#[test]
fn locator_of_other_packs_is_inconsistent() {
    let other = Some(GitLocatorCoverage {
        generation: 1,
        pack_index_hash: hash(101),
    });
    let (repository, reads) = open_with(&main_manifest(1, ONES), other);
    assert_eq!(
        repository.err(),
        Some(Error::RepositoryState {
            reason: RepositoryStateError::InconsistentGeneration
        })
    );
    assert_eq!(reads, 2);
}

#[test]
fn publication_lag_counts_generations() {
    let mut handshake = OpenHandshake::new();
    assert!(handshake.accept_manifest(&main_manifest(9, ONES), 0).is_ok());
    assert_eq!(
        handshake.accept_locator(coverage(4)),
        LocatorDecision::Indexing {
            observed: Some(4),
            required: 9,
            lag: 5
        }
    );
    assert_eq!(
        handshake.accept_locator(None),
        LocatorDecision::Indexing {
            observed: None,
            required: 9,
            lag: 9
        }
    );
}

#[test]
fn pending_transactions_refuse_the_open() {
    let mut handshake = OpenHandshake::new();
    assert_eq!(
        handshake.accept_manifest(&main_manifest(9, ONES), 1).err(),
        Some(Error::RepositoryIndexing {
            observed: Some(9),
            required: 10
        })
    );
    assert_eq!(
        handshake
            .accept_manifest(&main_manifest(u64::MAX, ONES), 1)
            .err(),
        Some(Error::RepositoryIndexing {
            observed: Some(u64::MAX),
            required: u64::MAX
        })
    );
}

#[test]
fn a_repository_with_references_needs_a_readable_pack_index() {
    let mut manifest = main_manifest(1, ONES);
    manifest.pack_index_hash = None;
    let mut handshake = OpenHandshake::new();
    assert_eq!(
        handshake.accept_manifest(&manifest, 0).err(),
        Some(Error::RepositoryState {
            reason: RepositoryStateError::InvalidContentIdentity
        })
    );
}

#[test]
fn an_unconfirmed_handshake_does_not_open() {
    let mut handshake = OpenHandshake::new();
    let step = handshake
        .accept_manifest(&main_manifest(1, ONES), 0)
        .expect("manifest");
    let opened: Result<RemoteGitRepository<()>, Error> = RemoteGitRepository::open(
        1,
        identity(),
        RepositoryOptions::default(),
        String::new(),
        String::new(),
        &handshake,
        step,
        PackInventory::new(),
        None,
    );
    assert_eq!(
        opened.err(),
        Some(Error::RepositoryState {
            reason: RepositoryStateError::InconsistentGeneration
        })
    );
}

#[test]
fn a_lost_commit_graph_is_done_without() {
    assert!(matches!(
        optional_graph(Err(Error::PathNotFound)),
        Ok((None, true))
    ));
    assert!(matches!(optional_graph(Ok(None)), Ok((None, false))));
    assert_eq!(optional_closure::<u8, Error>(Ok(Some(7))), (Some(7), false));
    assert_eq!(
        optional_closure::<u8, Error>(Err(Error::PathNotFound)),
        (None, true)
    );
    assert!(matches!(
        optional_graph(Err(Error::Cancelled)),
        Err(Error::Cancelled)
    ));
}

#[test]
fn repository_handle_revalidation_detects_manifest_replacement() {
    let (repository, _) = open_with(&main_manifest(1, ONES), coverage(1));
    let repository = repository.expect("open");
    assert!(repository.is_current(Some("etag-1")));
    assert!(!repository.is_current(Some("etag-2")));
    assert!(!repository.is_current(None));
    assert!(same_etag(None, ""));
    assert!(!same_etag(Some("a"), ""));
}

#[test]
fn repository_handle_never_mutates_to_a_concurrently_published_generation() {
    let (first, _) = open_with(&main_manifest(1, ONES), coverage(1));
    let first = first.expect("open generation one");
    let (second, _) = open_with(&main_manifest(2, TWOS), coverage(2));
    let second = second.expect("open generation two");
    assert_eq!(first.generation(), 1);
    assert_eq!(
        first.refs().head.as_ref().map(|head| head.target),
        Some(parse_oid("1111111111111111111111111111111111111111").expect("OID"))
    );
    assert_eq!(second.generation(), 2);
    assert_eq!(
        second.refs().head.as_ref().map(|head| head.target),
        Some(parse_oid("2222222222222222222222222222222222222222").expect("OID"))
    );
    assert_eq!(second.pack_count(), 1);
}

#[test]
fn pinned_inventory_comparison_rejects_changed_or_duplicate_packs() {
    let (repository, _) = open_with(&main_manifest(1, ONES), coverage(1));
    let repository = repository.expect("open");
    let packs = vec![pack(1)];
    assert_eq!(repository.matches_pack_inventory(&packs), Ok(true));
    let mut changed = packs.clone();
    changed[0].size += 1;
    assert_eq!(repository.matches_pack_inventory(&changed), Ok(false));
    changed = packs.clone();
    changed[0].object_count += 1;
    assert_eq!(repository.matches_pack_inventory(&changed), Ok(false));
    changed = packs.clone();
    changed[0].pack_id = Some(MerkleHash {
        high: u128::MAX,
        low: u128::MAX,
    });
    assert_eq!(repository.matches_pack_inventory(&changed), Ok(false));
    assert_eq!(repository.matches_pack_inventory(&[]), Ok(false));
    let duplicated = [packs[0], packs[0]];
    assert!(matches!(
        repository.matches_pack_inventory(&duplicated),
        Err(Error::RepositoryState {
            reason: RepositoryStateError::DuplicatePack
        })
    ));
}

#[test]
fn pack_order_is_no_part_of_an_inventory() {
    let forward = parse_inventory(&[pack(1), pack(2), pack(3)]).expect("inventory");
    let backward = parse_inventory(&[pack(3), pack(2), pack(1)]).expect("inventory");
    assert!(forward.same_packs(&backward));
    assert_eq!(forward.len(), 3);
    assert_eq!(forward.only_pack(), None);
    assert_eq!(forward.get(1).map(|entry| entry.pack_id), Some(hash(2)));
    assert_eq!(forward.get(3), None);
    for (at, id) in [3, 2, 1].into_iter().enumerate() {
        assert_eq!(backward.get(at).map(|entry| entry.pack_id), Some(hash(id)));
    }
    let malformed = PackManifestEntry {
        pack_id: None,
        ..pack(1)
    };
    assert_eq!(
        parse_inventory(&[pack(1), malformed]).err(),
        Some(Error::RepositoryState {
            reason: RepositoryStateError::InvalidContentIdentity
        })
    );
}

#[test]
fn a_snapshot_operation_binds_the_identity_to_its_digest() {
    let manifest = manifest_refs(vec![manifest_ref("refs/heads/main", true, ONES)]);
    let pinned = |max_entries: u64| -> Result<(OperationContext, RemoteGitRepository<()>), Error> {
        OperationContext::from_snapshot(
            5,
            RepositoryOptions::new(
                ObjectLimits::default(),
                OperationLimits {
                    max_entries,
                    ..OperationLimits::default()
                },
            )
            .expect("options"),
            identity(),
            "snapshot".to_owned(),
            3,
            "digest".to_owned(),
            "etag".to_owned(),
            &manifest,
            1,
            &[pack(1), pack(2)],
        )
    };
    let (operation, repository) = pinned(3).expect("snapshot operation");
    assert!(operation.belongs_to(5));
    assert_eq!(repository.generation(), 3);
    assert_eq!(repository.pack_count(), 2);
    assert_eq!(repository.coverage(), None);
    assert!(*repository.identity() == identity().pinned_to("snapshot".to_owned()));
    assert!(*repository.identity() != identity().pinned_to("another".to_owned()));
    assert_eq!(
        pinned(2).err(),
        Some(Error::LimitExceeded {
            limit: "snapshot entries",
            actual: 3,
            maximum: 2
        })
    );
}

#[test]
fn visibility_proofs_list_exactly_the_pinned_refs() {
    let mut manifest = main_manifest(1, ONES);
    manifest.refs.refs.push(manifest_ref("refs/tags/v1", true, TWOS));
    manifest.refs.peeled_refs.push(peeled_ref("refs/tags/v1", ONES));
    let (repository, _) = open_with(&manifest, coverage(1));
    let repository = repository.expect("open");
    assert_eq!(
        repository.accept_proof(true, 2, &[true, true]),
        Ok(vec![
            (0, repeated(0x11)),
            (1, repeated(0x22)),
            (1, repeated(0x11))
        ])
    );
    let mismatch = Error::RepositoryState {
        reason: RepositoryStateError::VisibilityProofMismatch,
    };
    assert_eq!(
        repository.accept_proof(false, 2, &[true, true]),
        Err(mismatch)
    );
    assert_eq!(
        repository.accept_proof(true, 3, &[true, true]),
        Err(mismatch)
    );
    assert_eq!(
        repository.accept_proof(true, 2, &[true, false]),
        Err(mismatch)
    );
    assert_eq!(check_visible_tips(2, &[true, true]), Ok(()));
    assert_eq!(check_visible_tips(2, &[true]), Err(mismatch));
    assert_eq!(check_visible_tips(1, &[false]), Err(mismatch));
}

#[test]
fn a_lease_provider_is_installed_once() {
    let (repository, _) = open_with(&main_manifest(1, ONES), coverage(1));
    let repository = repository.expect("open");
    assert!(repository.generated_pack_lease_provider().is_none());
    let repository = repository.with_generated_pack_lease_provider(());
    assert!(repository.generated_pack_lease_provider().is_some());
    assert_eq!(repository.generation(), 1);
    assert_eq!(
        repository.options().object_limits(),
        ObjectLimits::default()
    );
}

#[test]
fn operations_belong_to_one_generation() {
    let (repository, _) = open_with(&main_manifest(1, ONES), coverage(1));
    let repository = repository.expect("open");
    let foreign = OperationContext { repository: 2 };
    let revision = Revision::Commit(repeated(1));
    assert_eq!(
        repository.resolve(&revision, true, &foreign),
        Err(Error::InternalInvariant {
            invariant: "operation belongs to another repository generation"
        })
    );
    assert_eq!(
        repository.resolve(&revision, true, &repository.operation()),
        Ok(ResolveStep::Prove {
            commit: repeated(1)
        })
    );
}

fn tag(oid: ObjectId, target: ObjectId) -> AnnotatedTag {
    AnnotatedTag {
        oid,
        target,
        target_kind: ObjectKind::Tag,
        name: b"tag".to_vec(),
        tagger: None,
        message: Vec::new(),
        signature: None,
    }
}

#[test]
fn tag_depth_limit_is_exact() {
    for maximum in 0usize..32 {
        let mut state = TagPeelState::new(maximum);
        for index in 0..maximum {
            let oid = repeated(index as u8 + 1);
            let target = repeated(index as u8 + 2);
            state.visit(oid).expect("unique tag");
            state.push(tag(oid, target)).expect("within depth");
        }
        let oid = repeated(200);
        assert!(matches!(
            state.push(tag(oid, repeated(201))),
            Err(Error::Revision {
                reason: RevisionError::TagDepth
            })
        ));
    }
}

#[test]
fn repeated_tag_oid_is_always_a_cycle() {
    for byte in 0u8..=255 {
        let oid = repeated(byte);
        let mut state = TagPeelState::new(8);
        state.visit(oid).expect("first visit");
        assert!(matches!(
            state.visit(oid),
            Err(Error::Revision {
                reason: RevisionError::TagCycle
            })
        ));
    }
}

fn peel(
    start: ObjectId,
    maximum: usize,
    read: &dyn Fn(ObjectId) -> PeelObject,
) -> Result<(ObjectId, Vec<AnnotatedTag>), Error> {
    let mut walk = PeelWalk::new(start, maximum);
    loop {
        let oid = walk.next()?;
        if let Some(commit) = walk.accept(read(oid))? {
            return Ok((commit, walk.into_tags()));
        }
    }
}

/// A nested tag `v2` of a tag `v1` of a commit, a tag of a blob, and a cycle.
fn tagged(oid: ObjectId) -> PeelObject {
    if oid == repeated(1) {
        PeelObject::Commit
    } else if oid == repeated(2) {
        PeelObject::Tag {
            tag: tag(oid, repeated(1)),
        }
    } else if oid == repeated(3) {
        let mut nested = tag(oid, repeated(2));
        nested.signature = Some(b"test-signature".to_vec());
        PeelObject::Tag { tag: nested }
    } else if oid == repeated(5) {
        PeelObject::Tag {
            tag: tag(oid, repeated(4)),
        }
    } else if oid == repeated(6) {
        PeelObject::Tag {
            tag: tag(oid, repeated(7)),
        }
    } else if oid == repeated(7) {
        PeelObject::Tag {
            tag: tag(oid, repeated(6)),
        }
    } else {
        PeelObject::Other
    }
}

#[test]
fn parses_merge_signature_nested_tags_and_root_commit() {
    let (commit, tags) = peel(repeated(3), 32, &tagged).expect("nested tag");
    assert_eq!(commit, repeated(1));
    assert_eq!(tags.len(), 2);
    assert!(tags[0].signature.is_some());
    let (root, none) = peel(repeated(1), 32, &tagged).expect("commit");
    assert_eq!(root, repeated(1));
    assert!(none.is_empty());
}

#[test]
fn peeling_reports_cycles_depth_and_other_objects() {
    let reason = |start: u8, maximum: usize| {
        peel(repeated(start), maximum, &tagged).err().expect("refused")
    };
    assert_eq!(
        reason(6, 32),
        Error::Revision {
            reason: RevisionError::TagCycle
        }
    );
    assert_eq!(
        reason(3, 1),
        Error::Revision {
            reason: RevisionError::TagDepth
        }
    );
    assert_eq!(
        reason(5, 32),
        Error::Revision {
            reason: RevisionError::NotCommit
        }
    );
}

fn signature() -> Signature {
    Signature {
        name: b"Crab Test".to_vec(),
        email: b"test@crab.invalid".to_vec(),
        seconds: 1_700_000_000,
        offset: 0,
    }
}

fn commit(oid: ObjectId, parents: Vec<ObjectId>) -> Commit {
    Commit {
        oid,
        tree: repeated(90),
        parents,
        author: signature(),
        committer: signature(),
        encoding: None,
        message: b"message".to_vec(),
        signature_headers: Vec::new(),
    }
}

/// A merge (3) of a root (1) and a side commit (2), whose parent is the root.
fn merged(oid: ObjectId) -> Commit {
    if oid == repeated(3) {
        commit(oid, vec![repeated(1), repeated(2)])
    } else if oid == repeated(2) {
        commit(oid, vec![repeated(1)])
    } else {
        commit(oid, Vec::new())
    }
}

/// Search for a commit, charging at most `budget` visits.
fn reach(target: ObjectId, roots: &Vec<ObjectId>, budget: u64) -> Result<bool, Error> {
    let mut walk = ReachWalk::new(target, roots);
    let mut charged = 0u64;
    loop {
        let request = walk.next();
        for charge in request.charges() {
            charged += charge.amount;
            if charged > budget {
                return Err(Error::LimitExceeded {
                    limit: "history commits",
                    actual: charged,
                    maximum: budget,
                });
            }
        }
        match request {
            ReachRequest::Read { oid } => walk.accept(&merged(oid)),
            ReachRequest::Reached => return Ok(true),
            ReachRequest::Unreachable => return Ok(false),
        }
    }
}

#[test]
fn direct_commit_resolution_checks_both_merge_parents_before_deeper_history() {
    for (first_parent, maximum) in [(true, 2), (false, 3)] {
        let target = if first_parent { repeated(1) } else { repeated(2) };
        assert_eq!(reach(target, &vec![repeated(3)], maximum), Ok(true));
        assert!(reach(target, &vec![repeated(3)], maximum - 1).is_err());
    }
}

#[test]
fn a_search_ends_where_nothing_is_left_to_read() {
    for budget in 0..3 {
        assert!(reach(repeated(9), &vec![repeated(3)], budget).is_err());
    }
    assert_eq!(reach(repeated(9), &vec![repeated(3)], 3), Ok(false));
    assert_eq!(reach(repeated(9), &Vec::new(), 0), Ok(false));
}

#[test]
fn direct_commit_reachability_stops_at_the_operation_budget() {
    assert!(matches!(
        reach(repeated(9), &vec![repeated(3)], 1),
        Err(Error::LimitExceeded {
            limit: "history commits",
            ..
        })
    ));
}

#[test]
fn rejects_wrong_kind_and_unreachable_retained_commit() {
    assert!(matches!(
        peel(repeated(5), 32, &tagged),
        Err(Error::Revision {
            reason: RevisionError::NotCommit
        })
    ));
    let reachable = reach(repeated(9), &vec![repeated(3)], 100).expect("complete search");
    assert!(matches!(
        commit_start(repeated(9), reachable),
        Err(Error::Revision {
            reason: RevisionError::NotReachable
        })
    ));
}

#[test]
fn reachability_roots_skip_tags_of_other_objects() {
    let not_commit = Error::Revision {
        reason: RevisionError::NotCommit,
    };
    let blob_tag = reference("refs/tags/blob", repeated(5), None);
    assert_eq!(reference_root(&blob_tag, Err(not_commit)), Ok(None));
    let branch = reference("refs/heads/blob", repeated(5), None);
    assert_eq!(reference_root(&branch, Err(not_commit)), Err(not_commit));
    assert_eq!(
        reference_root(&blob_tag, Err(Error::Cancelled)),
        Err(Error::Cancelled)
    );
    let peeled = reference("refs/tags/v1", repeated(2), Some(repeated(1)));
    assert_eq!(
        reference_root(&peeled, Ok(repeated(1))),
        Ok(Some(repeated(1)))
    );
    assert_eq!(
        reference_root(&peeled, Ok(repeated(9))),
        Err(Error::Corrupt {
            stage: crab_remote_git::error::CorruptionStage::Tag
        })
    );
}

#[test]
fn revisions_resolve_through_their_reference() {
    let mut manifest = main_manifest(1, ONES);
    manifest.refs.refs.push(manifest_ref("refs/tags/v1", true, TWOS));
    manifest.refs.peeled_refs.push(peeled_ref("refs/tags/v1", ONES));
    let (repository, _) = open_with(&manifest, coverage(1));
    let repository = repository.expect("open");
    let operation = repository.operation();
    let revision = Revision::Reference("v1".to_owned());
    let start = match repository.resolve(&revision, true, &operation) {
        Ok(ResolveStep::Peel { start }) => start,
        _ => panic!("a reference is peeled"),
    };
    assert_eq!(start.start, repeated(0x22));
    let result = resolved(
        revision,
        start,
        repeated(0x11),
        vec![tag(repeated(0x22), repeated(0x11))],
    )
    .expect("resolved");
    assert_eq!(result.reference.as_deref(), Some("refs/tags/v1"));
    assert_eq!(result.commit, repeated(0x11));
    assert_eq!(result.tags.len(), 1);

    let direct = commit_start(repeated(1), true).expect("reachable");
    assert_eq!(
        resolved(Revision::Commit(repeated(1)), direct, repeated(2), Vec::new()),
        Err(Error::Corrupt {
            stage: crab_remote_git::error::CorruptionStage::Tag
        })
    );
}
