use pixelcraft::block::blocks;
use pixelcraft::crafting::{craft, recipes};
use pixelcraft::inventory::{hotbar, Inventory, HOTBAR_LEN};
use pixelcraft::quest::{Objective, Quest, QuestLog};

#[test]
fn add_and_count() {
    let mut inv = Inventory::new(32);
    inv.add(blocks::STONE(), 3);
    assert_eq!(inv.count(blocks::STONE()), 3);
    assert_eq!(inv.count(blocks::DIRT()), 0);
}

#[test]
fn take_one_decrements_until_empty() {
    let mut inv = Inventory::new(32);
    inv.add(blocks::PLANK(), 2);
    assert!(inv.take_one(blocks::PLANK()));
    assert!(inv.take_one(blocks::PLANK()));
    assert!(!inv.take_one(blocks::PLANK()));
    assert_eq!(inv.count(blocks::PLANK()), 0);
}

#[test]
fn hotbar_scroll_wraps() {
    let mut inv = Inventory::new(32);
    inv.select(0);
    inv.scroll(-1);
    assert_eq!(inv.selected, hotbar().len() - 1);
    inv.scroll(1);
    assert_eq!(inv.selected, 0);
}

#[test]
fn take_is_all_or_nothing() {
    let mut inv = Inventory::new(32);
    inv.add(blocks::SAND(), 2);
    assert!(!inv.take(blocks::SAND(), 3));
    assert_eq!(inv.count(blocks::SAND()), 2);
    assert!(inv.take(blocks::SAND(), 2));
    assert_eq!(inv.count(blocks::SAND()), 0);
}

#[test]
fn add_saturates_and_ignores_unknown_ids() {
    let mut inv = Inventory::new(5);
    inv.add(blocks::SAND(), u32::MAX);
    inv.add(blocks::SAND(), 5);
    assert_eq!(inv.count(blocks::SAND()), u32::MAX);
    inv.add(blocks::LANTERN(), 5);
    assert_eq!(inv.count(blocks::LANTERN()), 0);
    assert!(!inv.take(blocks::LANTERN(), 0));
}

#[test]
fn empty_registry_still_holds_one_slot() {
    let mut inv = Inventory::new(0);
    inv.add(blocks::AIR(), 2);
    assert_eq!(inv.count(blocks::AIR()), 2);
}

#[test]
fn selection_wraps_both_ways() {
    let mut inv = Inventory::new(32);
    inv.select(11);
    assert_eq!(inv.selected, 3);
    assert_eq!(inv.selected_block(), blocks::SAND());
    inv.scroll(-12);
    assert_eq!(inv.selected, 7);
    assert_eq!(inv.selected_block(), blocks::LANTERN());
    inv.scroll(9);
    assert_eq!(inv.selected, 0);
    assert_eq!(inv.selected_block(), blocks::DIRT());
    assert_eq!(HOTBAR_LEN, 8);
}

#[test]
fn craft_planks_from_a_log() {
    let mut inv = Inventory::new(32);
    inv.add(blocks::TRUNK(), 2);
    assert!(craft(&mut inv, 0));
    assert_eq!(inv.count(blocks::TRUNK()), 1);
    assert_eq!(inv.count(blocks::PLANK()), 4);
}

#[test]
fn cannot_craft_without_ingredients() {
    let mut inv = Inventory::new(32);
    let lantern_idx = recipes().iter().position(|r| r.name == "LANTERN").unwrap();
    assert!(!craft(&mut inv, lantern_idx));
    assert_eq!(inv.count(blocks::LANTERN()), 0);
}

#[test]
fn lantern_consumes_planks_and_coal() {
    let mut inv = Inventory::new(32);
    inv.add(blocks::PLANK(), 3);
    inv.add(blocks::COAL_ORE(), 1);
    let idx = recipes().iter().position(|r| r.name == "LANTERN").unwrap();
    assert!(craft(&mut inv, idx));
    assert_eq!(inv.count(blocks::PLANK()), 0);
    assert_eq!(inv.count(blocks::COAL_ORE()), 0);
    assert_eq!(inv.count(blocks::LANTERN()), 2);
}

#[test]
fn affordability_reflects_inventory() {
    let mut inv = Inventory::new(32);
    let book = recipes();
    let planks = &book[0];
    assert!(!planks.affordable(&inv));
    inv.add(blocks::TRUNK(), 1);
    assert!(planks.affordable(&inv));
}

#[test]
fn unknown_recipe_index_crafts_nothing() {
    let mut inv = Inventory::new(32);
    inv.add(blocks::TRUNK(), 5);
    assert!(!craft(&mut inv, 6));
    assert_eq!(inv.count(blocks::TRUNK()), 5);
    assert_eq!(recipes().len(), 6);
}

#[test]
fn partial_ingredients_leave_inventory_untouched() {
    let mut inv = Inventory::new(32);
    inv.add(blocks::PLANK(), 3);
    assert!(!craft(&mut inv, 3));
    assert_eq!(inv.count(blocks::PLANK()), 3);
}

#[test]
fn collect_advances_and_completes_with_reward() {
    let mut log = QuestLog::cosy_chain();
    assert_eq!(log.hud().unwrap().1, (0, 5));
    let r = log.on_collect(blocks::FLOWER_PINK(), 2);
    assert!(r.is_empty());
    assert_eq!(log.hud().unwrap().1, (2, 5));
    let r = log.on_collect(blocks::STONE(), 10);
    assert!(r.is_empty());
    assert_eq!(log.hud().unwrap().1, (2, 5));
    let r = log.on_collect(blocks::FLOWER_BLUE(), 3);
    assert_eq!(r, vec![(blocks::PLANK(), 16)]);
    assert_eq!(log.completed_count(), 1);
    assert_eq!(log.current().unwrap().title, "PICK SWEET BERRIES");
}

#[test]
fn place_quest_tracks_placement() {
    let mut log = QuestLog::new(vec![Quest {
        title: "BUILD",
        objective: Objective::Place(vec![blocks::PLANK()]),
        target: 3,
        reward: vec![(blocks::LANTERN(), 1)],
    }]);
    assert!(log.on_place(blocks::PLANK()).is_empty());
    assert!(log.on_place(blocks::DIRT()).is_empty());
    assert!(log.on_place(blocks::PLANK()).is_empty());
    let r = log.on_place(blocks::PLANK());
    assert_eq!(r, vec![(blocks::LANTERN(), 1)]);
    assert!(log.is_complete());
    assert!(log.hud().is_none());
}

#[test]
fn completing_chain_ends_cleanly() {
    let mut log = QuestLog::new(vec![Quest {
        title: "ONE",
        objective: Objective::Collect(vec![blocks::TRUNK()]),
        target: 1,
        reward: vec![],
    }]);
    log.on_collect(blocks::TRUNK(), 1);
    assert!(log.is_complete());
    assert!(log.on_collect(blocks::TRUNK(), 5).is_empty());
}

#[test]
fn placing_does_not_count_for_collect_quests() {
    let mut log = QuestLog::cosy_chain();
    assert!(log.on_place(blocks::FLOWER_PINK()).is_empty());
    assert_eq!(log.hud().unwrap().1, (0, 5));
    assert_eq!(log.hud().unwrap().0, "GATHER WILDFLOWERS");
}

#[test]
fn overshooting_a_target_completes_once() {
    let mut log = QuestLog::cosy_chain();
    let r = log.on_collect(blocks::FLOWER_PINK(), 40);
    assert_eq!(r, vec![(blocks::PLANK(), 16)]);
    assert_eq!(log.completed_count(), 1);
    assert_eq!(log.hud().unwrap().1, (0, 6));
}

#[test]
fn scroll_reads_the_slot_as_a_wrapping_i32() {
    let mut inv = Inventory::new(4);
    inv.selected = 0xFFFF_FFFF;
    inv.scroll(1);
    assert_eq!(inv.selected, 0);
}
