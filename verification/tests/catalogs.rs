use sovereign_os::profile_bundles::{BundleCatalog, BundleError, BundleName};
use sovereign_os::provider_catalog::{ProviderCatalog, ProviderError, ProviderId, Status};

#[test]
fn four_bundles_positioned_1_to_4() {
    for (b, p) in [
        (BundleName::Private, 1),
        (BundleName::Careful, 2),
        (BundleName::Fast, 3),
        (BundleName::Sovereign, 4),
    ] {
        assert_eq!(b.position(), p);
    }
}

#[test]
fn private_features_verbatim() {
    let f = BundleName::Private.features();
    assert_eq!(f[0], "local models");
    assert_eq!(f[1], "no network");
    assert_eq!(f[2], "no cloud");
    assert_eq!(f[3], "sandbox tools");
}

#[test]
fn careful_features_verbatim() {
    let f = BundleName::Careful.features();
    assert_eq!(f[0], "map first");
    assert_eq!(f[1], "spec required");
    assert_eq!(f[2], "tests required");
    assert_eq!(f[3], "oracle review");
}

#[test]
fn fast_features_verbatim() {
    let f = BundleName::Fast.features();
    assert_eq!(f[0], "scout first");
    assert_eq!(f[1], "shallow map");
    assert_eq!(f[2], "minimal verification");
    assert_eq!(f[3], "");
}

#[test]
fn sovereign_features_verbatim() {
    let f = BundleName::Sovereign.features();
    assert_eq!(f[0], "user-visible gates");
    assert_eq!(f[1], "local memory ownership");
    assert_eq!(f[2], "explicit external calls");
    assert_eq!(f[3], "replay always on");
}

#[test]
fn empty_canonical_validates() {
    BundleCatalog::empty_canonical().validate().unwrap();
}

#[test]
fn switch_active_to_selectable() {
    let mut c = BundleCatalog::empty_canonical();
    c.switch_active(BundleName::Careful).unwrap();
    assert_eq!(c.active, BundleName::Careful);
    c.validate().unwrap();
}

#[test]
fn switch_to_non_selectable_refused() {
    let mut c = BundleCatalog::empty_canonical();
    if let Some(e) = c.bundles.iter_mut().find(|e| e.bundle == BundleName::Fast) {
        e.selectable = false;
    }
    assert!(matches!(
        c.switch_active(BundleName::Fast).unwrap_err(),
        BundleError::ActiveNotSelectable(_)
    ));
    assert_eq!(c.active, BundleName::Private);
}

#[test]
fn feature_mismatch_caught() {
    let mut c = BundleCatalog::empty_canonical();
    if let Some(e) = c.bundles.iter_mut().find(|e| e.bundle == BundleName::Private) {
        e.features[0] = "tampered".into();
    }
    match c.validate().unwrap_err() {
        BundleError::FeatureMismatch { bundle } => assert_eq!(bundle, BundleName::Private),
        other => panic!("unexpected: {other:?}"),
    }
}

#[test]
fn bundle_errors_in_order() {
    let mut missing = BundleCatalog::empty_canonical();
    missing.bundles[2].bundle = BundleName::Careful;
    assert_eq!(missing.validate(), Err(BundleError::BundleMissing(BundleName::Fast)));

    let mut inactive = BundleCatalog::empty_canonical();
    inactive.bundles[0].selectable = false;
    assert_eq!(inactive.validate(), Err(BundleError::ActiveNotSelectable(BundleName::Private)));

    let mut gone = BundleCatalog::empty_canonical();
    gone.bundles.pop();
    gone.bundles.push(gone.bundles[0].clone());
    assert_eq!(gone.switch_active(BundleName::Sovereign), Err(BundleError::BundleMissing(BundleName::Sovereign)));
}

#[test]
fn canonical_validates() {
    ProviderCatalog::canonical().validate().unwrap();
}

#[test]
fn six_providers_present() {
    let c = ProviderCatalog::canonical();
    for id in [
        ProviderId::LocalOllama,
        ProviderId::LocalVllm,
        ProviderId::CloudAnthropic,
        ProviderId::CloudOpenai,
        ProviderId::CloudGoogle,
        ProviderId::Mock,
    ] {
        assert!(c.get(id).is_some(), "missing {id:?}");
    }
}

#[test]
fn cloud_providers_require_api_key() {
    let c = ProviderCatalog::canonical();
    for id in [ProviderId::CloudAnthropic, ProviderId::CloudOpenai, ProviderId::CloudGoogle] {
        assert!(c.get(id).unwrap().requires_api_key, "{id:?} should require api key");
    }
}

#[test]
fn local_providers_dont_require_api_key() {
    let c = ProviderCatalog::canonical();
    for id in [ProviderId::LocalOllama, ProviderId::LocalVllm] {
        assert!(!c.get(id).unwrap().requires_api_key);
    }
}

#[test]
fn private_bundle_excludes_cloud_providers() {
    let c = ProviderCatalog::canonical();
    for id in [ProviderId::CloudAnthropic, ProviderId::CloudOpenai, ProviderId::CloudGoogle] {
        assert!(!c.get(id).unwrap().allowed_bundles.contains(&BundleName::Private));
    }
}

#[test]
fn set_status_updates() {
    let mut c = ProviderCatalog::canonical();
    assert_eq!(c.get(ProviderId::LocalOllama).unwrap().status, Status::Offline);
    assert!(c.set_status(ProviderId::LocalOllama, Status::Online));
    assert_eq!(c.get(ProviderId::LocalOllama).unwrap().status, Status::Online);
}

#[test]
fn eligible_returns_only_online_and_bundle_permitted() {
    let mut c = ProviderCatalog::canonical();
    let v = c.eligible(BundleName::Sovereign);
    assert_eq!(v.len(), 1);
    assert_eq!(v[0].id, ProviderId::Mock);
    c.set_status(ProviderId::CloudAnthropic, Status::Online);
    let v = c.eligible(BundleName::Sovereign);
    assert_eq!(v.len(), 2);
    let v = c.eligible(BundleName::Private);
    assert_eq!(v.len(), 1);
    assert_eq!(v[0].id, ProviderId::Mock);
}

#[test]
fn cloud_without_key_invalid() {
    let mut c = ProviderCatalog::canonical();
    for e in c.entries.iter_mut() {
        if e.id == ProviderId::CloudAnthropic {
            e.requires_api_key = false;
        }
    }
    assert!(matches!(
        c.validate().unwrap_err(),
        ProviderError::CloudWithoutKey(ProviderId::CloudAnthropic)
    ));
}

#[test]
fn provider_errors_in_order() {
    let mut no_endpoint = ProviderCatalog::canonical();
    no_endpoint.entries[1].endpoint.clear();
    assert_eq!(no_endpoint.validate(), Err(ProviderError::EmptyEndpoint(ProviderId::LocalVllm)));

    let mut no_bundles = ProviderCatalog::canonical();
    no_bundles.entries[5].allowed_bundles.clear();
    assert_eq!(no_bundles.validate(), Err(ProviderError::NoBundles(ProviderId::Mock)));

    let mut missing = ProviderCatalog::canonical();
    missing.entries[0].id = ProviderId::Mock;
    assert_eq!(missing.validate(), Err(ProviderError::Missing(ProviderId::LocalOllama)));
}

#[test]
fn status_changes_never_change_validation() {
    let mut c = ProviderCatalog::canonical();
    for id in [ProviderId::LocalOllama, ProviderId::CloudGoogle, ProviderId::Mock] {
        c.set_status(id, Status::Disabled);
        assert_eq!(c.validate(), Ok(()));
    }
    assert!(c.eligible(BundleName::Fast).is_empty());
}

#[test]
fn set_status_of_absent_provider_is_refused() {
    let mut c = ProviderCatalog::canonical();
    c.entries.retain(|e| e.id != ProviderId::Mock);
    assert!(!c.set_status(ProviderId::Mock, Status::Online));
    assert!(c.get(ProviderId::Mock).is_none());
}
