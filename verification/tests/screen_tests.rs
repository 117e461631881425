use sbepis::questing::Quest;
use sbepis::questing::QuestId;
use sbepis::questing::QuestType;
use sbepis::questing::Quests;
use sbepis::screen::QuestScreen;
use sbepis::screen::UiCommand;
use sbepis::text::fill_percent;
use sbepis::text::progress_text;
use sbepis::text::u32_to_string;

fn quest(id: u128, quest_type: QuestType, progress: u32) -> Quest {
    Quest {
        id: QuestId(id),
        quest_type,
        name: format!("Quest {id}"),
        description: format!("Description {id}"),
        completed: false,
        progress,
    }
}

#[test]
fn decimal_rendering_is_exact() {
    assert_eq!(u32_to_string(0), "0");
    assert_eq!(u32_to_string(7), "7");
    assert_eq!(u32_to_string(10), "10");
    assert_eq!(u32_to_string(12345), "12345");
    assert_eq!(u32_to_string(u32::MAX), "4294967295");
}

#[test]
fn progress_caption_is_exact() {
    assert_eq!(progress_text(0, 3), "0/3");
    assert_eq!(progress_text(12, 20), "12/20");
}

#[test]
fn fill_percent_maps_linearly() {
    assert_eq!(fill_percent(0, 5), 0);
    assert_eq!(fill_percent(1, 3), 33);
    assert_eq!(fill_percent(2, 4), 50);
    assert_eq!(fill_percent(5, 5), 100);
    assert_eq!(fill_percent(1, 1), 100);
}

#[test]
fn sync_creates_nodes_for_tracked_quests() {
    let mut quests = Quests::new();
    quests.insert(quest(1, QuestType::Kill(4), 2));
    quests.insert(quest(2, QuestType::Fetch, 0));
    let mut screen = QuestScreen::new();
    screen.track(QuestId(1));
    screen.track(QuestId(2));

    let cmds = screen.update_quest_screen_nodes(&quests);
    assert_eq!(cmds.len(), 2);
    assert!(screen.get_node(QuestId(1)).is_some());
    assert!(screen.get_node(QuestId(2)).is_some());

    match &cmds[0] {
        UiCommand::SpawnNode { node, name, description, progress_text, fill_percent } => {
            assert_eq!(node.quest_id, QuestId(1));
            assert_eq!(name, "Quest 1");
            assert_eq!(description, "Description 1");
            assert_eq!(progress_text, "2/4");
            assert_eq!(*fill_percent, 50);
        }
        other => panic!("expected a spawn command, got {other:?}"),
    }
}

#[test]
fn sync_is_idempotent() {
    let mut quests = Quests::new();
    quests.insert(quest(1, QuestType::Fetch, 0));
    let mut screen = QuestScreen::new();
    screen.track(QuestId(1));
    let first = screen.update_quest_screen_nodes(&quests);
    assert_eq!(first.len(), 1);
    let node = *screen.get_node(QuestId(1)).unwrap();
    let second = screen.update_quest_screen_nodes(&quests);
    assert!(second.is_empty());
    assert_eq!(*screen.get_node(QuestId(1)).unwrap(), node);
}

#[test]
fn sync_removes_untracked_quests() {
    let mut quests = Quests::new();
    quests.insert(quest(1, QuestType::Fetch, 0));
    let mut screen = QuestScreen::new();
    screen.track(QuestId(1));
    screen.update_quest_screen_nodes(&quests);
    let node = *screen.get_node(QuestId(1)).unwrap();

    screen.untrack(QuestId(1));
    let cmds = screen.update_quest_screen_nodes(&quests);
    assert!(screen.get_node(QuestId(1)).is_none());
    assert_eq!(cmds.len(), 2);
    match (&cmds[0], &cmds[1]) {
        (UiCommand::DespawnNode { node: a }, UiCommand::DespawnNode { node: b }) => {
            assert_eq!(*a, node.node);
            assert_eq!(*b, node.display);
        }
        other => panic!("expected two despawn commands, got {other:?}"),
    }
}

#[test]
fn sync_lists_additions_before_removals() {
    let mut quests = Quests::new();
    quests.insert(quest(1, QuestType::Fetch, 0));
    quests.insert(quest(2, QuestType::Kill(2), 0));
    let mut screen = QuestScreen::new();
    screen.track(QuestId(1));
    screen.update_quest_screen_nodes(&quests);

    screen.untrack(QuestId(1));
    screen.track(QuestId(2));
    let cmds = screen.update_quest_screen_nodes(&quests);
    assert_eq!(cmds.len(), 3);
    assert!(matches!(cmds[0], UiCommand::SpawnNode { .. }));
    assert!(matches!(cmds[1], UiCommand::DespawnNode { .. }));
    assert!(matches!(cmds[2], UiCommand::DespawnNode { .. }));
    assert!(screen.get_node(QuestId(2)).is_some());
    assert!(screen.get_node(QuestId(1)).is_none());
}

#[test]
fn selecting_a_node_toggles_detail_visibility() {
    let mut quests = Quests::new();
    quests.insert(quest(1, QuestType::Fetch, 0));
    quests.insert(quest(2, QuestType::Fetch, 0));
    let mut screen = QuestScreen::new();
    screen.track(QuestId(1));
    screen.track(QuestId(2));
    screen.update_quest_screen_nodes(&quests);
    let first = *screen.get_node(QuestId(1)).unwrap();
    let second = *screen.get_node(QuestId(2)).unwrap();

    let cmds = screen.change_displayed_node(QuestId(1));
    assert_eq!(cmds.len(), 1);
    assert!(matches!(cmds[0], UiCommand::SetVisible { node, visible: true } if node == first.display));
    assert_eq!(screen.current_displayed(), Some(first.display));

    let cmds = screen.change_displayed_node(QuestId(2));
    assert_eq!(cmds.len(), 2);
    assert!(matches!(cmds[0], UiCommand::SetVisible { node, visible: false } if node == first.display));
    assert!(matches!(cmds[1], UiCommand::SetVisible { node, visible: true } if node == second.display));
    assert_eq!(screen.current_displayed(), Some(second.display));
}

#[test]
fn selecting_an_unmapped_quest_is_a_no_op() {
    let mut screen = QuestScreen::new();
    let cmds = screen.change_displayed_node(QuestId(42));
    assert!(cmds.is_empty());
    assert_eq!(screen.current_displayed(), None);
}

#[test]
fn progress_refresh_rewrites_caption_and_fill() {
    let mut quests = Quests::new();
    quests.insert(quest(1, QuestType::Kill(4), 1));
    let mut screen = QuestScreen::new();
    screen.track(QuestId(1));
    screen.update_quest_screen_nodes(&quests);
    let node = *screen.get_node(QuestId(1)).unwrap();

    quests.insert(quest(1, QuestType::Kill(4), 3));
    let cmds = screen.update_quest_node_progress(&quests);
    assert_eq!(cmds.len(), 2);
    match (&cmds[0], &cmds[1]) {
        (UiCommand::SetText { node: tn, text }, UiCommand::SetFill { node: bn, percent }) => {
            assert_eq!(*tn, node.progress_text);
            assert_eq!(text, "3/4");
            assert_eq!(*bn, node.progress_bar);
            assert_eq!(*percent, 75);
        }
        other => panic!("expected refresh commands, got {other:?}"),
    }
}

#[test]
fn hotkey_toggles_once_per_press_edge() {
    let mut toggle = sbepis::screen::ScreenToggle::new();
    assert!(!toggle.open_now());
    // one press held over several ticks opens exactly once
    toggle.sample(true);
    assert!(toggle.open_now());
    toggle.sample(true);
    toggle.sample(true);
    assert!(toggle.open_now());
    // releasing changes nothing; the next press closes
    toggle.sample(false);
    assert!(toggle.open_now());
    toggle.sample(true);
    assert!(!toggle.open_now());
}

#[test]
fn untracking_unknown_id_changes_nothing() {
    let mut screen = QuestScreen::new();
    screen.track(QuestId(1));
    screen.untrack(QuestId(2));
    assert!(screen.is_tracked(QuestId(1)));
    assert!(!screen.is_tracked(QuestId(2)));
}
