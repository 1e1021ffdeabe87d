use frame_store::registry::WebhookRegistry;
use frame_store::webhook::Webhook;

fn webhooks(count: usize) -> Vec<Webhook> {
    (0..count)
        .map(|i| Webhook {
            id: format!("id{i}"),
            token: format!("tok{i}"),
        })
        .collect()
}

#[test]
fn spreads_uniformly_across_webhooks() {
    let mut registry = WebhookRegistry::new(webhooks(3));
    let mut counts = [0u64; 3];
    for _ in 0..30 {
        let idx = registry.pick().unwrap();
        counts[idx] += 1;
        registry.finish(idx);
    }
    assert_eq!(counts, [10, 10, 10]);
}

#[test]
fn skips_dead_webhooks() {
    let mut registry = WebhookRegistry::new(webhooks(2));
    let first = registry.pick().unwrap();
    registry.mark_dead(first);
    registry.finish(first);
    for _ in 0..5 {
        let idx = registry.pick().unwrap();
        assert_ne!(idx, first);
        registry.finish(idx);
    }
}

#[test]
fn returns_none_when_all_dead() {
    let mut registry = WebhookRegistry::new(webhooks(1));
    let idx = registry.pick().unwrap();
    registry.mark_dead(idx);
    registry.finish(idx);
    assert!(registry.pick().is_none());
}

#[test]
fn picked_webhooks_stay_out_of_rotation() {
    let mut registry = WebhookRegistry::new(webhooks(2));
    assert_eq!(registry.pick(), Some(0));
    assert_eq!(registry.pick(), Some(1));
    assert_eq!(registry.pick(), None);
    registry.finish(1);
    assert_eq!(registry.pick(), Some(1));
}

#[test]
fn picks_the_least_used_first() {
    let mut registry = WebhookRegistry::new(webhooks(3));
    for _ in 0..2 {
        let idx = registry.pick().unwrap();
        assert_eq!(idx, if registry.slot(0).used == 0 { 0 } else { 1 });
        registry.finish(idx);
    }
    assert_eq!(registry.slot(0).used, 1);
    assert_eq!(registry.slot(1).used, 1);
    assert_eq!(registry.pick(), Some(2));
    assert_eq!(registry.slot(2).id, "id2");
    assert_eq!(registry.slot(2).token, "tok2");
}

#[test]
fn a_webhook_that_dies_in_rotation_is_dropped() {
    let mut registry = WebhookRegistry::new(webhooks(2));
    registry.mark_dead(0);
    assert_eq!(registry.pick(), Some(1));
    assert_eq!(registry.pick(), None);
}

#[test]
fn picks_follow_the_counts_of_the_free() {
    let mut registry = WebhookRegistry::new(webhooks(3));
    assert_eq!(registry.pick(), Some(0));
    assert_eq!(registry.pick(), Some(1));
    registry.finish(1);
    assert_eq!(registry.pick(), Some(2));
    registry.finish(2);
    registry.finish(0);
    assert_eq!([0, 1, 2].map(|idx| registry.slot(idx).used), [1, 1, 1]);
    assert_eq!(registry.pick(), Some(0));
    registry.mark_dead(1);
    assert_eq!(registry.pick(), Some(2));
    assert_eq!(registry.pick(), None);
}
