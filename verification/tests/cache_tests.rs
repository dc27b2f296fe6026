use dns_forwarder::cache::{clone_answers, effective_ttl_of, same_question, DNSCache};
use dns_forwarder::packet::{Answer, Question};

fn question(label: &str) -> Question {
    let mut name = vec![label.len() as u8];
    name.extend_from_slice(label.as_bytes());
    name.push(0);
    Question { name, tp: 1, class: 1 }
}

fn answer(label: &str, ttl: u32, last: u8) -> Answer {
    Answer { name: question(label).name, tp: 1, class: 1, ttl, length: 4, data: vec![10, 0, 0, last] }
}

#[test]
fn empty_cache_finds_nothing() {
    let cache = DNSCache::new();
    assert!(!cache.holds(&question("a")));
    assert_eq!(cache.get(&question("a"), 0), None);
}

#[test]
fn short_ttl_is_raised_to_the_floor() {
    let mut cache = DNSCache::new();
    cache.insert(question("a"), vec![answer("a", 5, 1)], 1_000);
    assert_eq!(cache.get(&question("a"), 1_000), Some(vec![answer("a", 5, 1)]));
    assert_eq!(cache.get(&question("a"), 300_999), Some(vec![answer("a", 5, 1)]));
    assert_eq!(cache.get(&question("a"), 301_000), None);
    assert_eq!(cache.get(&question("a"), 301_001), None);
}

#[test]
fn long_ttl_is_kept() {
    let mut cache = DNSCache::new();
    cache.insert(question("a"), vec![answer("a", 3600, 1)], 0);
    assert!(cache.get(&question("a"), 300_000).is_some());
    assert!(cache.get(&question("a"), 3_599_999).is_some());
    assert_eq!(cache.get(&question("a"), 3_600_000), None);
}

#[test]
fn effective_ttl_is_the_least_ttl_with_a_floor() {
    assert_eq!(effective_ttl_of(&vec![]), 300);
    assert_eq!(effective_ttl_of(&vec![answer("a", 0, 1)]), 300);
    assert_eq!(effective_ttl_of(&vec![answer("a", 299, 1)]), 300);
    assert_eq!(effective_ttl_of(&vec![answer("a", 300, 1)]), 300);
    assert_eq!(effective_ttl_of(&vec![answer("a", 301, 1)]), 301);
    assert_eq!(effective_ttl_of(&vec![answer("a", 900, 1), answer("a", 600, 2), answer("a", 700, 3)]), 600);
    assert_eq!(effective_ttl_of(&vec![answer("a", 900, 1), answer("a", 10, 2)]), 300);
    assert_eq!(effective_ttl_of(&vec![answer("a", u32::MAX, 1)]), u32::MAX);
}

#[test]
fn no_answers_are_kept_for_the_floor() {
    let mut cache = DNSCache::new();
    cache.insert(question("a"), vec![], 50);
    assert_eq!(cache.get(&question("a"), 300_049), Some(vec![]));
    assert_eq!(cache.get(&question("a"), 300_050), None);
}

#[test]
fn insert_takes_the_place_of_the_old_entry() {
    let mut cache = DNSCache::new();
    cache.insert(question("a"), vec![answer("a", 400, 1)], 0);
    cache.insert(question("b"), vec![answer("b", 400, 2)], 0);
    cache.insert(question("a"), vec![answer("a", 500, 3)], 100_000);
    assert!(cache.holds(&question("a")));
    assert!(cache.holds(&question("b")));
    assert_eq!(cache.get(&question("a"), 450_000), Some(vec![answer("a", 500, 3)]));
    assert_eq!(cache.get(&question("a"), 600_000), None);
    assert_eq!(cache.get(&question("b"), 399_999), Some(vec![answer("b", 400, 2)]));
    assert_eq!(cache.get(&question("b"), 400_000), None);
}

#[test]
fn expired_entry_is_found_again_after_the_next_insert() {
    let mut cache = DNSCache::new();
    cache.insert(question("a"), vec![answer("a", 300, 1)], 0);
    assert_eq!(cache.get(&question("a"), 300_000), None);
    cache.insert(question("a"), vec![answer("a", 300, 1)], 300_000);
    assert!(cache.get(&question("a"), 300_000).is_some());
}

#[test]
fn questions_differ_by_name_type_and_class() {
    let mut cache = DNSCache::new();
    cache.insert(question("a"), vec![answer("a", 300, 1)], 0);
    let mut other_type = question("a");
    other_type.tp = 28;
    let mut other_class = question("a");
    other_class.class = 3;
    assert_eq!(cache.get(&other_type, 1), None);
    assert_eq!(cache.get(&other_class, 1), None);
    assert_eq!(cache.get(&question("A"), 1), None);
    assert_eq!(cache.get(&question("b"), 1), None);
    assert!(same_question(&question("a"), &question("a")));
    assert!(!same_question(&question("a"), &other_type));
    assert!(!same_question(&question("a"), &other_class));
    assert!(!same_question(&question("a"), &question("b")));
    assert!(!same_question(&question("a"), &question("ab")));
}

#[test]
fn cleanup_removes_what_has_expired_and_nothing_else() {
    let mut cache = DNSCache::new();
    cache.insert(question("a"), vec![answer("a", 300, 1)], 0);
    cache.insert(question("b"), vec![answer("b", 301, 2)], 0);
    cache.insert(question("c"), vec![answer("c", 600, 3)], 0);
    cache.insert(question("d"), vec![answer("d", 300, 4)], 1);
    let held = |cache: &DNSCache| -> Vec<bool> {
        ["a", "b", "c", "d"].iter().map(|label| cache.holds(&question(label))).collect()
    };
    cache.cleanup(299_999);
    assert_eq!(held(&cache), vec![true, true, true, true]);
    cache.cleanup(300_000);
    assert_eq!(held(&cache), vec![false, true, true, true]);
    assert_eq!(cache.get(&question("a"), 0), None);
    assert_eq!(cache.get(&question("b"), 300_000), Some(vec![answer("b", 301, 2)]));
    assert_eq!(cache.get(&question("d"), 300_000), Some(vec![answer("d", 300, 4)]));
    cache.cleanup(301_000);
    assert_eq!(held(&cache), vec![false, false, true, false]);
    assert_eq!(cache.get(&question("c"), 301_000), Some(vec![answer("c", 600, 3)]));
    cache.cleanup(u64::MAX);
    assert_eq!(held(&cache), vec![false, false, false, false]);
}

#[test]
fn expiry_stops_at_the_end_of_the_clock() {
    let mut cache = DNSCache::new();
    cache.insert(question("a"), vec![answer("a", 300, 1)], u64::MAX - 10);
    assert!(cache.get(&question("a"), u64::MAX - 1).is_some());
    assert_eq!(cache.get(&question("a"), u64::MAX), None);
}

#[test]
fn clone_answers_copies_each_answer() {
    let answers = vec![answer("a", 1, 1), answer("b", 2, 2)];
    assert_eq!(clone_answers(&answers), answers);
    assert_eq!(clone_answers(&vec![]), vec![]);
}

#[test]
fn expired_entries_stay_until_they_are_swept() {
    let mut cache = DNSCache::new();
    cache.insert(question("a"), vec![answer("a", 300, 1)], 0);
    assert_eq!(cache.get(&question("a"), 400_000), None);
    assert!(cache.holds(&question("a")));
    cache.cleanup(400_000);
    assert!(!cache.holds(&question("a")));
}

#[test]
fn many_questions_share_the_slots() {
    let mut cache = DNSCache::new();
    for i in 0..5000u32 {
        let label = format!("host{}", i);
        cache.insert(question(&label), vec![answer(&label, 300 + i, (i % 256) as u8)], i as u64);
    }
    for i in 0..5000u32 {
        let label = format!("host{}", i);
        let expires = i as u64 + (300 + i as u64) * 1000;
        assert_eq!(
            cache.get(&question(&label), expires - 1),
            Some(vec![answer(&label, 300 + i, (i % 256) as u8)])
        );
        assert_eq!(cache.get(&question(&label), expires), None);
    }
    cache.cleanup(2_000_000);
    for i in 0..5000u32 {
        let label = format!("host{}", i);
        let expires = i as u64 + (300 + i as u64) * 1000;
        assert_eq!(cache.holds(&question(&label)), expires > 2_000_000);
    }
}
