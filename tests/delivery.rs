use reliable_delivery::cache::{resource_key, ReliabilityCache};
use reliable_delivery::gap::{SourceState, PENDING_LIMIT};
use reliable_delivery::history::{HistoryRing, SnRange};
use reliable_delivery::publisher::{NBFTReliablePublisher, NBFTReliablePublisherBuilder};
use reliable_delivery::sample::{Sample, SampleKind};
use reliable_delivery::selector::{parse_selector, SelectorError};
use reliable_delivery::sequencer::Sequencer;
use reliable_delivery::subscriber::ReliableSubscriber;

fn publisher(id: u128, history: usize) -> NBFTReliablePublisher {
    NBFTReliablePublisherBuilder::new(String::from("demo/example"))
        .history(history)
        .res(id)
}

fn sample(id: u128, sn: u64) -> Sample {
    Sample {
        key: String::from("k"),
        kind: SampleKind::Put,
        payload: sn.to_string().into_bytes(),
        source_id: id,
        source_sn: sn,
        timestamp: None,
    }
}

fn sns(v: &[Sample]) -> Vec<u64> {
    v.iter().map(|s| s.source_sn).collect()
}

#[test]
fn sequencer_counts_from_zero() {
    let mut s = Sequencer::new(7);
    assert_eq!(s.next_sn(), 0);
    let a = s.stamp();
    let b = s.stamp();
    let c = s.stamp();
    assert_eq!((a.source_sn, b.source_sn, c.source_sn), (0, 1, 2));
    assert_eq!(a.source_id, 7);
    assert_eq!(s.next_sn(), 3);
    assert!(!s.is_exhausted());
}

#[test]
fn clean_delivery() {
    let mut p = publisher(1, 1024);
    let mut sub = ReliableSubscriber::new(false);
    let mut delivered = Vec::new();
    for i in 0..10u8 {
        let s = p.put(vec![b'0' + i]);
        delivered.extend(sub.on_sample(s).delivered);
    }
    assert_eq!(sns(&delivered), (0..10).collect::<Vec<u64>>());
    for (i, s) in delivered.iter().enumerate() {
        assert_eq!(s.payload, vec![b'0' + i as u8]);
        assert_eq!(s.key, "demo/example");
    }
}

#[test]
fn startup_backfill_comes_before_live_samples() {
    let mut p = publisher(1, 10);
    for c in ["a", "b", "c", "d", "e"] {
        p.put(c.as_bytes().to_vec());
    }
    let mut sub = ReliableSubscriber::new(true);
    assert!(sub.is_staging());
    let live = p.put(b"f".to_vec());
    assert!(sub.on_sample(live).delivered.is_empty());
    let replies = p.handle_query("demo/example", "_sn=|").unwrap();
    assert_eq!(replies.len(), 6);
    let staged = sub.begin_delivery();
    assert_eq!(staged.len(), 1);
    let mut delivered = Vec::new();
    for r in replies.into_iter().take(5) {
        delivered.extend(sub.on_sample(r).delivered);
    }
    for s in staged {
        delivered.extend(sub.on_sample(s).delivered);
    }
    let payloads: Vec<Vec<u8>> = delivered.iter().map(|s| s.payload.clone()).collect();
    assert_eq!(
        payloads,
        vec![b"a".to_vec(), b"b".to_vec(), b"c".to_vec(), b"d".to_vec(), b"e".to_vec(), b"f".to_vec()]
    );
    assert_eq!(sns(&delivered), vec![0, 1, 2, 3, 4, 5]);
}

#[test]
fn gap_is_repaired_from_the_cache() {
    let mut p = publisher(9, 1024);
    let mut sub = ReliableSubscriber::new(false);
    let mut delivered = Vec::new();
    let mut repair = None;
    for _ in 0..100 {
        let s = p.put(vec![1]);
        if (42..=44).contains(&s.source_sn) {
            continue;
        }
        let out = sub.on_sample(s);
        if out.repair_from.is_some() {
            assert!(repair.is_none());
            repair = out.repair_from;
        }
        delivered.extend(out.delivered);
    }
    assert_eq!(repair, Some(42));
    assert_eq!(sns(&delivered), (0..42).collect::<Vec<u64>>());
    let params = format!("_sn={}|;_src={:x}", 42, 9u128);
    for r in p.handle_query("demo/example", &params).unwrap() {
        delivered.extend(sub.on_sample(r).delivered);
    }
    assert!(sub.on_query_done(9).delivered.is_empty());
    assert_eq!(sns(&delivered), (0..100).collect::<Vec<u64>>());
}

#[test]
fn evicted_history_is_reported_lost() {
    let mut p = publisher(3, 4);
    for _ in 0..20 {
        p.put(vec![0]);
    }
    let mut sub = ReliableSubscriber::new(true);
    let replies = p.handle_query("demo/example", "_sn=|").unwrap();
    assert_eq!(sns(&replies), vec![16, 17, 18, 19]);
    sub.begin_delivery();
    let mut delivered = Vec::new();
    for r in replies {
        delivered.extend(sub.on_sample(r).delivered);
    }
    let next = p.put(vec![1]);
    delivered.extend(sub.on_sample(next).delivered);
    assert_eq!(sns(&delivered), vec![16, 17, 18, 19, 20]);
}

#[test]
fn repeated_empty_repairs_give_up_the_gap() {
    let mut st = SourceState::new(0);
    let out = st.on_sample(sample(1, 5));
    assert!(out.delivered.is_empty());
    assert_eq!(out.repair_from, Some(0));
    let out = st.on_sample(sample(1, 6));
    assert_eq!(out.repair_from, None);
    let first = st.on_query_done();
    assert_eq!(first.repair_from, Some(0));
    assert!(first.lost.is_none());
    let second = st.on_query_done();
    assert!(second.lost.is_none());
    let third = st.on_query_done();
    assert_eq!(third.lost, Some((0, 5)));
    assert_eq!(sns(&third.delivered), vec![5, 6]);
    assert_eq!(third.repair_from, None);
    assert_eq!(st.next_expected(), 7);
    assert_eq!(sns(&st.on_sample(sample(1, 7)).delivered), vec![7]);
}

#[test]
fn two_sources_keep_their_own_order() {
    let mut p1 = publisher(1, 64);
    let mut p2 = publisher(2, 64);
    let mut sub = ReliableSubscriber::new(false);
    let mut delivered = Vec::new();
    for _ in 0..50 {
        delivered.extend(sub.on_sample(p1.put(vec![1])).delivered);
        delivered.extend(sub.on_sample(p2.put(vec![2])).delivered);
    }
    assert_eq!(delivered.len(), 100);
    let from1: Vec<u64> = delivered.iter().filter(|s| s.source_id == 1).map(|s| s.source_sn).collect();
    let from2: Vec<u64> = delivered.iter().filter(|s| s.source_id == 2).map(|s| s.source_sn).collect();
    assert_eq!(from1, (0..50).collect::<Vec<u64>>());
    assert_eq!(from2, (0..50).collect::<Vec<u64>>());
    assert_eq!(sub.source_ids(), vec![1, 2]);
}

#[test]
fn duplicates_and_late_samples_are_dropped() {
    let mut st = SourceState::new(0);
    assert_eq!(sns(&st.on_sample(sample(1, 0)).delivered), vec![0]);
    assert!(st.on_sample(sample(1, 0)).delivered.is_empty());
    st.on_sample(sample(1, 3));
    assert_eq!(st.pending_len(), 1);
    let again = st.on_sample(sample(1, 3));
    assert!(again.delivered.is_empty());
    assert_eq!(st.pending_len(), 1);
    assert!(st.on_sample(sample(1, u64::MAX)).delivered.is_empty());
    st.on_sample(sample(1, 2));
    assert_eq!(sns(&st.on_sample(sample(1, 1)).delivered), vec![1, 2, 3]);
    assert_eq!(st.pending_len(), 0);
}

#[test]
fn too_many_held_back_samples_reset_the_source() {
    let mut st = SourceState::new(0);
    for sn in 1..=(PENDING_LIMIT as u64) {
        st.on_sample(sample(1, sn));
    }
    assert_eq!(st.pending_len(), PENDING_LIMIT);
    let out = st.on_sample(sample(1, PENDING_LIMIT as u64 + 1));
    assert_eq!(out.repair_from, Some(0));
    assert_eq!(st.pending_len(), 1);
}

#[test]
fn periodic_scan_asks_only_when_stalled() {
    let mut st = SourceState::new(0);
    assert_eq!(st.on_tick(false), None);
    assert_eq!(st.on_tick(true), Some(0));
    assert_eq!(st.on_tick(true), None);
    st.on_query_done();
    st.on_sample(sample(1, 0));
    assert_eq!(st.on_tick(true), None);
    assert_eq!(st.on_tick(true), Some(1));
}

#[test]
fn ring_drops_oldest_when_full() {
    let mut r = HistoryRing::new(3);
    for sn in 0..5 {
        r.push(sample(1, sn));
    }
    assert_eq!(r.len(), 3);
    assert_eq!(r.capacity(), 3);
    let all = r.query(&SnRange { source: None, lo: None, hi: None });
    assert_eq!(sns(&all), vec![2, 3, 4]);
    let some = r.query(&SnRange { source: Some(1), lo: Some(3), hi: Some(3) });
    assert_eq!(sns(&some), vec![3]);
    assert!(r.query(&SnRange { source: Some(2), lo: None, hi: None }).is_empty());
}

#[test]
fn cache_evicts_least_recently_inserted_resource() {
    let mut c = ReliabilityCache::new(2, Some(2));
    let mut s = sample(1, 0);
    s.key = String::from("a");
    c.insert(s);
    let mut s = sample(1, 1);
    s.key = String::from("b");
    c.insert(s);
    let mut s = sample(1, 2);
    s.key = String::from("a");
    c.insert(s);
    let mut s = sample(1, 3);
    s.key = String::from("c");
    c.insert(s);
    let all = SnRange { source: None, lo: None, hi: None };
    assert!(c.query("b", &all).is_empty());
    assert_eq!(sns(&c.query("a", &all)), vec![0, 2]);
    assert_eq!(sns(&c.query("c", &all)), vec![3]);
    c.close();
    assert!(c.query("a", &all).is_empty());
}

#[test]
fn selector_forms() {
    assert_eq!(parse_selector(""), Ok(SnRange { source: None, lo: None, hi: None }));
    assert_eq!(parse_selector("_sn=5|"), Ok(SnRange { source: None, lo: Some(5), hi: None }));
    assert_eq!(parse_selector("_sn=|7"), Ok(SnRange { source: None, lo: None, hi: Some(7) }));
    assert_eq!(parse_selector("_sn=5"), Ok(SnRange { source: None, lo: Some(5), hi: Some(5) }));
    assert_eq!(
        parse_selector("_src=Ff;_sn=1|2;other=x"),
        Ok(SnRange { source: Some(255), lo: Some(1), hi: Some(2) })
    );
    assert_eq!(
        parse_selector("_sn=18446744073709551615|"),
        Ok(SnRange { source: None, lo: Some(u64::MAX), hi: None })
    );
}

#[test]
fn malformed_selectors_are_refused() {
    assert_eq!(parse_selector("_sn=x|"), Err(SelectorError::BadRange));
    assert_eq!(parse_selector("_sn=1|2|3"), Err(SelectorError::BadRange));
    assert_eq!(parse_selector("_sn=18446744073709551616|"), Err(SelectorError::BadRange));
    assert_eq!(parse_selector("_src=zz"), Err(SelectorError::BadSource));
    assert_eq!(parse_selector("_src="), Err(SelectorError::BadSource));
    assert_eq!(parse_selector("_src=1ffffffffffffffffffffffffffffffff"), Err(SelectorError::BadSource));
}

#[test]
fn builder_settings() {
    let b = NBFTReliablePublisherBuilder::new(String::from("x"));
    assert!(b.with_cache);
    assert_eq!(b.history, 1024);
    assert_eq!(b.resources_limit, None);
    let b = b.resources_limit(3).with_cache(false).history(0);
    assert_eq!(b.resources_limit, Some(3));
    let p = b.res(5);
    assert_eq!(p.key_expr(), "x");
    assert!(p.handle_query("x", "").unwrap().is_empty());
    let mut p = NBFTReliablePublisherBuilder::new(String::from("x")).history(0).res(5);
    assert_eq!(p.put(vec![1]).source_sn, 0);
    assert_eq!(p.put(vec![2]).source_sn, 1);
    assert!(p.handle_query("x", "").unwrap().is_empty());
}

#[test]
fn delete_is_stamped_and_cached() {
    let mut p = publisher(4, 8);
    p.put(vec![1, 2]);
    let d = p.delete();
    assert_eq!(d.kind, SampleKind::Delete);
    assert!(d.payload.is_empty());
    assert_eq!(d.source_sn, 1);
    let cached = p.handle_query("demo/example", "_sn=1|1").unwrap();
    assert_eq!(cached.len(), 1);
    assert_eq!(cached[0].kind, SampleKind::Delete);
    assert_eq!(p.handle_query("demo/example", "_sn=a").err(), Some(SelectorError::BadRange));
    p.undeclare();
    assert!(p.handle_query("demo/example", "").unwrap().is_empty());
}

#[test]
fn query_key_resolves_to_resource_under_prefix() {
    assert_eq!(resource_key("0a1b/demo/example", "0a1b"), Some("demo/example"));
    assert_eq!(resource_key("0a1b", "0a1b"), None);
    assert_eq!(resource_key("0a1c/demo", "0a1b"), None);
    assert_eq!(resource_key("0a1bx/demo", "0a1b"), None);
}

#[test]
fn written_samples_stay_within_the_ring_bound() {
    let mut p = publisher(6, 3);
    let mut last = Vec::new();
    for i in 0..10u8 {
        last.push(p.put(vec![i]).source_sn);
    }
    let kept = p.handle_query("demo/example", "").unwrap();
    assert_eq!(sns(&kept), vec![7, 8, 9]);
    assert_eq!(last, (0..10).collect::<Vec<u64>>());
}

#[test]
fn ring_of_capacity_zero_keeps_nothing() {
    let mut r = HistoryRing::new(0);
    r.push(sample(1, 0));
    assert_eq!(r.len(), 0);
    let mut c = ReliabilityCache::new(0, None);
    c.insert(sample(1, 0));
    assert!(c.query("k", &SnRange { source: None, lo: None, hi: None }).is_empty());
}
