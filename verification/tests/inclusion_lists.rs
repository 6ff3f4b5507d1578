use lighthouse_core::inclusion_list_cache::{
    InclusionList, InclusionListCache, SignedInclusionList,
};
use lighthouse_core::inclusion_list_duty::{InclusionListDuty, PublicKeyBytes};
use lighthouse_core::inclusion_list_service::{
    list_in_answer, next_wait, on_published, on_signed, slot_duration, spawn_inclusion_list_task,
    start_update_service, Action, Failure, Production, Wait,
};
use lighthouse_core::types::Hash256;

fn list(slot: u64, validator_index: u64, transactions: &[&[u8]]) -> SignedInclusionList {
    SignedInclusionList {
        message: InclusionList {
            slot,
            validator_index,
            inclusion_list_committee_root: Hash256::zero(),
            transactions: transactions.iter().map(|t| t.to_vec()).collect(),
        },
        signature: vec![1, 2, 3],
    }
}

fn transactions(cache: &InclusionListCache, slot: u64) -> Option<Vec<Vec<u8>>> {
    let mut all = cache.get_inclusion_list_transactions(slot)?;
    all.sort();
    Some(all)
}

#[test]
fn transactions_of_a_slot_are_collected_once() {
    let mut cache = InclusionListCache::new(100);
    cache.initialize(5);
    assert_eq!(transactions(&cache, 5), Some(vec![]));
    cache.on_inclusion_list(list(5, 1, &[&[1], &[2]]));
    cache.on_inclusion_list(list(5, 2, &[&[2], &[3]]));
    assert_eq!(transactions(&cache, 5), Some(vec![vec![1], vec![2], vec![3]]));
    // The same list again changes nothing.
    cache.on_inclusion_list(list(5, 1, &[&[1], &[2]]));
    assert_eq!(transactions(&cache, 5), Some(vec![vec![1], vec![2], vec![3]]));
    cache.clear_cache(5);
    assert_eq!(transactions(&cache, 5), None);
}

#[test]
fn lists_of_other_slots_are_ignored() {
    let mut cache = InclusionListCache::new(100);
    cache.initialize(5);
    cache.on_inclusion_list(list(6, 1, &[&[1]]));
    assert_eq!(transactions(&cache, 5), Some(vec![]));
    assert_eq!(transactions(&cache, 6), None);
    // Initializing again forgets what was known.
    cache.on_inclusion_list(list(5, 1, &[&[1]]));
    cache.initialize(5);
    assert_eq!(transactions(&cache, 5), Some(vec![]));
}

#[test]
fn a_second_list_of_a_validator_does_not_count() {
    let mut cache = InclusionListCache::new(100);
    cache.initialize(5);
    cache.on_inclusion_list(list(5, 1, &[&[1]]));
    cache.on_inclusion_list(list(5, 1, &[&[2]]));
    assert_eq!(transactions(&cache, 5), Some(vec![vec![1]]));
    // Now the validator is an equivocator: even a third list does not count.
    cache.on_inclusion_list(list(5, 1, &[&[3]]));
    cache.on_inclusion_list(list(5, 2, &[&[4]]));
    assert_eq!(transactions(&cache, 5), Some(vec![vec![1], vec![4]]));
    // A list that differs in its signature alone is a different list.
    let mut resigned = list(5, 2, &[&[4]]);
    resigned.signature = vec![9];
    cache.on_inclusion_list(resigned);
    cache.on_inclusion_list(list(5, 2, &[&[5]]));
    assert_eq!(transactions(&cache, 5), Some(vec![vec![1], vec![4]]));
}

#[test]
fn an_answer_holds_no_more_than_the_limit() {
    let mut cache = InclusionListCache::new(2);
    cache.initialize(5);
    cache.on_inclusion_list(list(5, 1, &[&[1], &[2], &[3]]));
    let answer = transactions(&cache, 5).unwrap();
    assert_eq!(answer.len(), 2);
    assert_ne!(answer[0], answer[1]);
}

fn duty(slot: u64, validator_index: u64) -> InclusionListDuty {
    InclusionListDuty {
        slot,
        validator_index,
        committee_root: Hash256::zero(),
        pubkey: PublicKeyBytes { lo: validator_index as u128, mid: 0, hi: 0 },
    }
}

#[test]
fn the_service_wakes_three_quarters_into_the_slot() {
    let slot = slot_duration(12);
    assert_eq!(slot, 12_000_000_000);
    assert_eq!(
        next_wait(Some(5_000_000_000), slot),
        Wait { duration: 14_000_000_000, spawn: true }
    );
    assert_eq!(next_wait(None, slot), Wait { duration: slot, spawn: false });
    assert_eq!(start_update_service(Some(3)), Ok(3));
    assert_eq!(
        start_update_service(None),
        Err("Unable to determine duration to next slot".to_string())
    );
}

#[test]
fn a_task_needs_a_clock() {
    assert_eq!(spawn_inclusion_list_task(Some(7), Some(1)), Ok(7));
    assert_eq!(
        spawn_inclusion_list_task(None, Some(1)),
        Err("Failed to read slot clock".to_string())
    );
    assert_eq!(
        spawn_inclusion_list_task(Some(7), None),
        Err("Unable to determine duration to next slot".to_string())
    );
}

#[test]
fn a_beacon_node_may_have_no_list() {
    assert_eq!(list_in_answer(Ok(Some(1))), Ok(1));
    assert_eq!(
        list_in_answer::<u64>(Ok(None)),
        Err("Inclusion list unavailable".to_string())
    );
    assert_eq!(
        list_in_answer::<u64>(Err("timeout".to_string())),
        Err("Failed to produce inclusion list: timeout".to_string())
    );
}

#[test]
fn lists_are_signed_for_the_duties_of_their_slot() {
    let run = Production { slot: 7, duties: vec![duty(7, 1), duty(8, 2), duty(7, 3)] };
    assert!(matches!(run.begin::<u64>(Some(7)), Action::FetchList(7)));
    assert!(matches!(run.begin::<u64>(None), Action::Finish(Err(Failure::Clock))));
    assert!(matches!(run.on_list::<u64>(None), Action::Finish(Err(Failure::NoList))));
    let Action::Sign(duties) = run.on_list::<u64>(Some(7)) else {
        panic!("expected duties to sign");
    };
    assert_eq!(duties, vec![duty(7, 1), duty(7, 3)]);
    let Action::Publish(lists, validators) = on_signed(&duties, vec![None, Some(33u64)]) else {
        panic!("expected lists to publish");
    };
    assert_eq!(lists, vec![33]);
    assert_eq!(validators, vec![3]);
    assert!(matches!(
        on_signed::<u64>(&duties, vec![None, None]),
        Action::Finish(Ok(()))
    ));
    assert!(matches!(on_published::<u64>(false), Action::Finish(Ok(()))));
}

#[test]
fn a_run_without_duties_is_over_at_once() {
    let run = Production { slot: 7, duties: vec![] };
    assert!(matches!(run.begin::<u64>(None), Action::Finish(Ok(()))));
}
