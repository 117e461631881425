use rand::SeedableRng;

use sbepis::questing::accept_proposal;
use sbepis::questing::finish_quest;
use sbepis::questing::generate_random_quest;
use sbepis::questing::get_proposed_quest;
use sbepis::questing::propose_quest;
use sbepis::questing::Quest;
use sbepis::questing::QuestGiver;
use sbepis::questing::QuestId;
use sbepis::questing::QuestProposal;
use sbepis::questing::QuestType;
use sbepis::questing::Quests;
use sbepis::screen::QuestScreen;

fn rng(seed: u64) -> rand::rngs::StdRng {
    rand::rngs::StdRng::seed_from_u64(seed)
}

fn quest(id: u128, quest_type: QuestType, progress: u32) -> Quest {
    Quest {
        id: QuestId(id),
        quest_type,
        name: String::from("Quest"),
        description: String::from("desc"),
        completed: false,
        progress,
    }
}

#[test]
fn generated_kill_counts_stay_in_range() {
    let mut r = rng(7);
    for _ in 0..500 {
        let q = generate_random_quest(&mut r);
        if let QuestType::Kill(amount) = q.quest_type {
            assert!((1..=5).contains(&amount));
        }
        assert!(!q.completed);
        assert_eq!(q.progress, 0);
    }
}

#[test]
fn generated_type_distribution_is_roughly_even() {
    let mut r = rng(99);
    let mut fetch = 0;
    let mut kill = 0;
    for _ in 0..1000 {
        match generate_random_quest(&mut r).quest_type {
            QuestType::Fetch => fetch += 1,
            QuestType::Kill(_) => kill += 1,
        }
    }
    assert!(fetch > 350, "fetch quests too rare: {fetch}");
    assert!(kill > 350, "kill quests too rare: {kill}");
}

#[test]
fn generated_texts_match_the_type() {
    let mut r = rng(3);
    let mut saw_fetch = false;
    let mut saw_kill = false;
    for _ in 0..50 {
        let q = generate_random_quest(&mut r);
        match q.quest_type {
            QuestType::Fetch => {
                saw_fetch = true;
                assert_eq!(q.name, "Awesome Fetch Quest");
                assert_eq!(q.description, "imps stole my orange cube... pwease go get it back!!");
            }
            QuestType::Kill(amount) => {
                saw_kill = true;
                assert_eq!(q.name, "Awesome Kill Quest");
                assert_eq!(
                    q.description,
                    format!("imps killed my grandma... pwease go take revenge on those darn imps for me... kill {amount}!!")
                );
            }
        }
    }
    assert!(saw_fetch && saw_kill);
}

#[test]
fn generated_ids_differ() {
    let mut r = rng(11);
    let a = generate_random_quest(&mut r);
    let b = generate_random_quest(&mut r);
    assert_ne!(a.id, b.id);
}

#[test]
fn registry_insert_get_remove() {
    let mut quests = Quests::new();
    quests.insert(quest(1, QuestType::Kill(3), 0));
    quests.insert(quest(2, QuestType::Fetch, 0));
    assert_eq!(quests.get(QuestId(1)).unwrap().quest_type, QuestType::Kill(3));
    assert_eq!(quests.get(QuestId(2)).unwrap().quest_type, QuestType::Fetch);
    assert!(quests.get(QuestId(3)).is_none());

    let removed = quests.remove(QuestId(1)).unwrap();
    assert_eq!(removed.id, QuestId(1));
    assert!(quests.get(QuestId(1)).is_none());
    assert!(quests.remove(QuestId(1)).is_none());
    assert!(quests.get(QuestId(2)).is_some());
}

#[test]
fn registry_insert_replaces_same_id() {
    let mut quests = Quests::new();
    quests.insert(quest(5, QuestType::Kill(2), 0));
    quests.insert(quest(5, QuestType::Kill(4), 1));
    assert_eq!(quests.get(QuestId(5)).unwrap().quest_type, QuestType::Kill(4));
    assert_eq!(quests.get(QuestId(5)).unwrap().progress, 1);
}

#[test]
fn proposing_with_no_giver_hit_is_a_no_op() {
    let mut quests = Quests::new();
    let mut screen = QuestScreen::new();
    let mut givers = vec![QuestGiver::default()];
    let mut r = rng(1);
    let proposal = propose_quest(&mut quests, &mut screen, &mut givers, None, &mut r);
    assert!(proposal.is_none());
    assert!(givers[0].given_quest.is_none());
}

#[test]
fn proposing_to_an_idle_giver_offers_a_quest() {
    let mut quests = Quests::new();
    let mut screen = QuestScreen::new();
    let mut givers = vec![QuestGiver::default()];
    let mut r = rng(2);
    let proposal = propose_quest(&mut quests, &mut screen, &mut givers, Some(0), &mut r).unwrap();
    let id = proposal.quest_id;
    assert!(quests.get(id).is_some());
    assert!(screen.is_tracked(id));
    assert_eq!(givers[0].given_quest, Some(id));
}

#[test]
fn proposing_to_an_offered_giver_is_a_no_op() {
    let mut quests = Quests::new();
    let mut screen = QuestScreen::new();
    let mut givers = vec![QuestGiver::default()];
    let mut r = rng(4);
    let first = propose_quest(&mut quests, &mut screen, &mut givers, Some(0), &mut r).unwrap();
    let second = propose_quest(&mut quests, &mut screen, &mut givers, Some(0), &mut r);
    assert!(second.is_none());
    assert_eq!(givers[0].given_quest, Some(first.quest_id));
    assert!(quests.get(first.quest_id).is_some());
    assert!(quests.remove(first.quest_id).is_some());
    // the second interaction registered nothing else
    assert!(quests.remove(first.quest_id).is_none());
}

#[test]
fn accepting_keeps_quest_and_giver_state() {
    let mut quests = Quests::new();
    let mut screen = QuestScreen::new();
    let mut givers = vec![QuestGiver::default()];
    let mut r = rng(5);
    let proposal = propose_quest(&mut quests, &mut screen, &mut givers, Some(0), &mut r).unwrap();
    let id = proposal.quest_id;
    let accepted = accept_proposal(&mut quests, &mut screen, &mut givers, proposal);
    assert_eq!(accepted, id);
    assert!(quests.get(id).is_some());
    assert!(screen.is_tracked(id));
    assert_eq!(givers[0].given_quest, Some(id));
}

#[test]
fn declining_removes_quest_and_frees_giver() {
    let mut quests = Quests::new();
    let mut screen = QuestScreen::new();
    let mut givers = vec![QuestGiver::default(), QuestGiver::default()];
    let mut r = rng(6);
    let proposal = propose_quest(&mut quests, &mut screen, &mut givers, Some(1), &mut r).unwrap();
    let id = get_proposed_quest(Some(&proposal)).unwrap();
    finish_quest(&mut quests, &mut screen, &mut givers, Some(id));
    assert!(quests.get(id).is_none());
    assert!(!screen.is_tracked(id));
    assert!(givers[1].given_quest.is_none());
    assert!(givers[0].given_quest.is_none());
}

#[test]
fn finishing_without_a_quest_id_is_a_no_op() {
    let mut quests = Quests::new();
    let mut screen = QuestScreen::new();
    let mut givers = vec![QuestGiver { given_quest: Some(QuestId(9)) }];
    finish_quest(&mut quests, &mut screen, &mut givers, None);
    assert_eq!(givers[0].given_quest, Some(QuestId(9)));
}

#[test]
fn proposal_lookup_mirrors_the_input() {
    let p = QuestProposal { quest_id: QuestId(77) };
    assert_eq!(get_proposed_quest(Some(&p)), Some(QuestId(77)));
    assert_eq!(get_proposed_quest(None), None);
}

#[test]
fn quest_type_progress_bounds() {
    assert_eq!(QuestType::Fetch.max_progress(), 1);
    assert_eq!(QuestType::Kill(5).max_progress(), 5);
    assert_eq!(QuestType::Kill(5).progress_range(), (0, 5));
}
