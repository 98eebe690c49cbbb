use inventory_tail::catalog::{
    lookup_item, search_monsters, DbState, Enchantment, ItemData, ItemMap, MonsterData,
    MonsterMap, MonsterSubItem,
};
use inventory_tail::event::{extract_event, Event};
use inventory_tail::is_item_instance;
use inventory_tail::session::{build_snapshot, find_run_start, Session};

fn fresh() -> Session {
    let lines: Vec<String> = Vec::new();
    Session::start(&lines, 0)
}

#[test]
fn item_instance_prefix() {
    assert!(is_item_instance("itm_1"));
    assert!(!is_item_instance("eft_1"));
    assert!(!is_item_instance("ste_9"));
    assert!(!is_item_instance("itm"));
}

#[test]
fn extract_purchase_line() {
    let ev = extract_event("Card Purchased: InstanceId: itm_1 - TemplateId T001 - Target:Hand_0");
    match ev {
        Some(Event::Purchased { iid, tid, target }) => {
            assert_eq!(iid, "itm_1");
            assert_eq!(tid, "T001");
            assert_eq!(target, "Hand_0");
        },
        _ => panic!("expected a purchase event"),
    }
}

#[test]
fn extract_purchase_line_tight_template() {
    let ev = extract_event("Card Purchased: InstanceId: itm_4 - TemplateIdT777 - Target:Storage_2");
    match ev {
        Some(Event::Purchased { iid, tid, target }) => {
            assert_eq!(iid, "itm_4");
            assert_eq!(tid, "T777");
            assert_eq!(target, "Storage_2");
        },
        _ => panic!("expected a purchase event"),
    }
}

#[test]
fn extract_sold_and_removed_lines() {
    match extract_event("Successfully removed item itm_2 from board") {
        Some(Event::Sold { iid }) => assert_eq!(iid, "itm_2"),
        _ => panic!("expected a sale event"),
    }
    match extract_event("Sold Card itm_7") {
        Some(Event::Sold { iid }) => assert_eq!(iid, "itm_7"),
        _ => panic!("expected a sale event"),
    }
}

#[test]
fn extract_move_line() {
    match extract_event("Successfully moved card itm_3 to Socket_4") {
        Some(Event::MoveToSocket { iid, socket }) => {
            assert_eq!(iid, "itm_3");
            assert_eq!(socket, "Socket_4");
        },
        _ => panic!("expected a move event"),
    }
}

#[test]
fn extract_field_and_marker_lines() {
    assert!(matches!(extract_event("whatever Cards Spawned: now"), Some(Event::BlockOpen)));
    assert!(matches!(extract_event("Finished processing board"), Some(Event::BlockClose)));
    match extract_event("ID: [itm_2]") {
        Some(Event::FieldId { id }) => assert_eq!(id, "itm_2"),
        _ => panic!("expected an identifier field"),
    }
    match extract_event("- Owner: [Player]") {
        Some(Event::FieldOwner { value }) => assert_eq!(value, "Player"),
        _ => panic!("expected an owner field"),
    }
    match extract_event("- Section: [Hand]") {
        Some(Event::FieldSection { value }) => assert_eq!(value, "Hand"),
        _ => panic!("expected a section field"),
    }
    match extract_event("- Socket: [Socket_2]") {
        Some(Event::FieldSocket { value }) => assert_eq!(value, "Socket_2"),
        _ => panic!("expected a socket field"),
    }
}

#[test]
fn extract_ignores_unknown_lines() {
    assert!(extract_event("nothing interesting here").is_none());
    assert!(extract_event("").is_none());
    assert!(extract_event("Card Purchased: InstanceId:").is_none());
}

#[test]
fn extract_dealt_line_collects_ids_in_order() {
    match extract_event("Cards Dealt stuff ID: [mon_5] mid ID: [mon_6] end") {
        Some(Event::DealtBatch { ids }) => {
            assert_eq!(ids, vec!["mon_5".to_string(), "mon_6".to_string()]);
        },
        _ => panic!("expected a dealt batch"),
    }
}

#[test]
fn scenario_purchase_to_hand() {
    let mut s = fresh();
    let dirty = s.handle_line(
        "Card Purchased: InstanceId: itm_1 - TemplateId T001 - Target:Hand_0",
    );
    assert!(dirty);
    assert!(s.should_publish(dirty));
    assert_eq!(s.state.hand, vec!["itm_1".to_string()]);
    assert!(s.state.stash.is_empty());
}

#[test]
fn scenario_repurchase_to_storage_keeps_both() {
    let mut s = fresh();
    s.handle_line("Card Purchased: InstanceId: itm_1 - TemplateId T001 - Target:Hand_0");
    s.handle_line("Card Purchased: InstanceId: itm_1 - TemplateId T001 - Target:Storage_0");
    assert_eq!(s.state.hand, vec!["itm_1".to_string()]);
    assert_eq!(s.state.stash, vec!["itm_1".to_string()]);
}

#[test]
fn scenario_resync_block_replaces_hand_and_publishes_once() {
    let mut s = fresh();
    s.handle_line("Card Purchased: InstanceId: itm_9 - TemplateId T009 - Target:Hand_0");
    let lines = [
        "Cards Spawned:",
        "ID: [itm_2]",
        "- Owner: [Player]",
        "- Section: [Hand]",
        "Finished processing",
    ];
    let mut publishes: usize = 0;
    for l in lines.iter() {
        let dirty = s.handle_line(l);
        if s.should_publish(dirty) {
            publishes += 1;
        }
    }
    assert_eq!(publishes, 1);
    assert_eq!(s.state.hand, vec!["itm_2".to_string()]);
}

#[test]
fn scenario_removal_outside_block() {
    let mut s = fresh();
    s.handle_line("Card Purchased: InstanceId: itm_2 - TemplateId T002 - Target:Hand_0");
    s.handle_line("Card Purchased: InstanceId: itm_2 - TemplateId T002 - Target:Storage_0");
    s.handle_line("Successfully removed item itm_2");
    assert!(s.state.hand.is_empty());
    assert!(s.state.stash.is_empty());
}

#[test]
fn scenario_dealt_batch_sets_encounter_in_order() {
    let mut s = fresh();
    s.handle_line("Cards Dealt to players ID: [mon_5] and ID: [mon_6]");
    assert_eq!(s.state.encounter, vec!["mon_5".to_string(), "mon_6".to_string()]);
}

#[test]
fn dealt_batch_deduplicates_by_first_occurrence() {
    let mut s = fresh();
    s.handle_line("Cards Dealt ID: [mon_1] ID: [mon_2] ID: [mon_1]");
    assert_eq!(s.state.encounter, vec!["mon_1".to_string(), "mon_2".to_string()]);
}

#[test]
fn opponent_placements_deduplicate_by_template() {
    let mut s = fresh();
    s.handle_line("Card Purchased: InstanceId: mon_a - TemplateId TM - Target:Board_0");
    s.handle_line("Card Purchased: InstanceId: mon_b - TemplateId TM - Target:Board_1");
    let lines = [
        "Cards Spawned:",
        "ID: [mon_a]",
        "- Owner: [Opponent]",
        "- Section: [Board]",
        "ID: [mon_b]",
        "- Owner: [Opponent]",
        "- Section: [Board]",
        "Finished processing",
    ];
    for l in lines.iter() {
        s.handle_line(l);
    }
    assert_eq!(s.state.encounter, vec!["TM".to_string()]);
}

#[test]
fn resync_block_twice_is_idempotent() {
    let mut s = fresh();
    s.handle_line("Card Purchased: InstanceId: itm_9 - TemplateId T009 - Target:Hand_0");
    let block = [
        "Cards Spawned:",
        "ID: [itm_2]",
        "- Owner: [Player]",
        "- Socket: [Socket_1]",
        "- Section: [Hand]",
        "ID: [itm_3]",
        "- Owner: [Player]",
        "- Socket: [Socket_9]",
        "- Section: [Storage]",
        "Finished processing",
    ];
    for l in block.iter() {
        s.handle_line(l);
    }
    let hand_once = s.state.hand.clone();
    let stash_once = s.state.stash.clone();
    for l in block.iter() {
        s.handle_line(l);
    }
    assert_eq!(s.state.hand, hand_once);
    assert_eq!(s.state.stash, stash_once);
    assert_eq!(s.state.hand, vec!["itm_2".to_string()]);
    assert_eq!(s.state.stash, vec!["itm_3".to_string()]);
}

#[test]
fn socket_move_uses_remembered_section() {
    let mut s = fresh();
    let block = [
        "Cards Spawned:",
        "ID: [itm_2]",
        "- Owner: [Player]",
        "- Socket: [Socket_1]",
        "- Section: [Hand]",
        "Finished processing",
    ];
    for l in block.iter() {
        s.handle_line(l);
    }
    let dirty = s.handle_line("Successfully moved card itm_8 to Socket_1");
    assert!(dirty);
    assert!(s.state.hand.contains(&"itm_8".to_string()));
    let unknown = s.handle_line("Successfully moved card itm_9 to Socket_77");
    assert!(!unknown);
    assert!(!s.state.hand.contains(&"itm_9".to_string()));
    assert!(!s.state.stash.contains(&"itm_9".to_string()));
}

#[test]
fn non_item_instances_are_not_tracked() {
    let mut s = fresh();
    s.handle_line("Card Purchased: InstanceId: eft_1 - TemplateId TE - Target:Hand_0");
    assert!(s.state.hand.is_empty());
    assert_eq!(s.state.catalog, vec![("eft_1".to_string(), "TE".to_string())]);
}

#[test]
fn storage_purchase_lands_in_stash_even_inside_block() {
    let mut s = fresh();
    s.handle_line("Cards Spawned:");
    let d1 = s.handle_line(
        "Card Purchased: InstanceId: itm_5 - TemplateId T5 - Target:Storage_0",
    );
    assert!(d1);
    assert!(!s.should_publish(d1));
    assert_eq!(s.state.stash, vec!["itm_5".to_string()]);
    let d2 = s.handle_line("Card Purchased: InstanceId: itm_6 - TemplateId T6 - Target:Hand_0");
    assert!(!d2);
    assert!(s.state.hand.is_empty());
    let d3 = s.handle_line("Successfully removed item itm_5");
    assert!(!d3);
    assert_eq!(s.state.stash, vec!["itm_5".to_string()]);
}

#[test]
fn hand_and_stash_stay_disjoint_without_replacing_events() {
    let mut s = fresh();
    s.handle_line("Card Purchased: InstanceId: itm_1 - TemplateId T1 - Target:Hand_0");
    s.handle_line("Card Purchased: InstanceId: itm_2 - TemplateId T2 - Target:Storage_0");
    s.handle_line("Successfully removed item itm_1");
    s.handle_line("Card Purchased: InstanceId: itm_1 - TemplateId T1 - Target:Storage_0");
    for h in s.state.hand.iter() {
        assert!(!s.state.stash.contains(h));
    }
}

#[test]
fn record_and_resolve_with_fallback() {
    let mut s = fresh();
    let iid = "itm_1".to_string();
    let tid = "T001".to_string();
    s.state.record(&iid, &tid);
    assert_eq!(s.state.resolve(&iid), "T001");
    let unknown = "itm_404".to_string();
    assert_eq!(s.state.resolve(&unknown), "itm_404");
    s.state.record(&iid, &"T002".to_string());
    assert_eq!(s.state.resolve(&iid), "T002");
}

#[test]
fn find_run_start_takes_last_marker() {
    let lines: Vec<String> = vec![
        "boot".to_string(),
        "State changed from [null] to [StartRunAppState]".to_string(),
        "play".to_string(),
        "State changed from [null] to [StartRunAppState]".to_string(),
        "more".to_string(),
    ];
    assert_eq!(find_run_start(&lines), 3);
    let none: Vec<String> = vec!["just a line".to_string()];
    assert_eq!(find_run_start(&none), 0);
}

#[test]
fn session_start_scans_whole_file() {
    let lines: Vec<String> = vec![
        "Card Purchased: InstanceId: itm_1 - TemplateId T001 - Target:Hand_0".to_string(),
        "noise".to_string(),
        "Card Purchased: InstanceId: eft_2 - TemplateId T002 - Target:Hand_0".to_string(),
    ];
    let s = Session::start(&lines, 42);
    assert_eq!(s.last_size, 42);
    assert_eq!(
        s.state.catalog,
        vec![
            ("itm_1".to_string(), "T001".to_string()),
            ("eft_2".to_string(), "T002".to_string()),
        ]
    );
    assert!(s.state.hand.is_empty());
}

#[test]
fn reset_after_shrink_publishes_empty_and_rescans() {
    let mut s = fresh();
    s.check_size(100);
    s.handle_line("Card Purchased: InstanceId: itm_1 - TemplateId T001 - Target:Hand_0");
    s.handle_line("Cards Dealt ID: [mon_1]");
    let shrunk = s.check_size(40);
    assert!(shrunk);
    let shorter: Vec<String> = vec![
        "Card Purchased: InstanceId: itm_8 - TemplateId T8 - Target:Hand_0".to_string(),
    ];
    let payload = s.reset(&shorter);
    assert!(payload.hand_items.is_empty());
    assert!(payload.stash_items.is_empty());
    assert!(s.state.hand.is_empty());
    assert!(s.state.stash.is_empty());
    assert!(s.state.encounter.is_empty());
    let rescanned = Session::start(&shorter, 40);
    assert_eq!(s.state.catalog, rescanned.state.catalog);
    assert!(!s.check_size(40));
}

#[test]
fn on_idle_fires_once() {
    let mut s = fresh();
    assert!(s.on_idle());
    assert!(!s.on_idle());
}

fn item(name_zh: &str) -> ItemData {
    ItemData {
        id: None,
        name_zh: name_zh.to_string(),
        enchantments: Some(vec![Enchantment {
            id: "e1".to_string(),
            name: "glow".to_string(),
            description: "shiny".to_string(),
        }]),
        image: Some("img.png".to_string()),
    }
}

#[test]
fn lookup_item_reattaches_template_id() {
    let mut db = ItemMap::new();
    db.insert("T001".to_string(), item("宝剑"));
    let found = lookup_item("T001", &db).expect("known template");
    assert_eq!(found.id, Some("T001".to_string()));
    assert_eq!(found.name_zh, "宝剑");
    assert_eq!(found.enchantments.unwrap().len(), 1);
    assert!(lookup_item("T999", &db).is_none());
}

#[test]
fn snapshot_resolves_hand_through_catalog() {
    let mut s = fresh();
    s.handle_line("Card Purchased: InstanceId: itm_1 - TemplateId T001 - Target:Hand_0");
    s.handle_line("Card Purchased: InstanceId: itm_2 - TemplateId T404 - Target:Storage_0");
    let mut db = ItemMap::new();
    db.insert("T001".to_string(), item("宝剑"));
    let snap = build_snapshot(&s.state, &db);
    assert_eq!(snap.hand_items.len(), 1);
    assert_eq!(snap.hand_items[0].id, Some("T001".to_string()));
    assert_eq!(snap.hand_items[0].name_zh, "宝剑");
    assert!(snap.stash_items.is_empty());
}

fn monster(name: &str, name_zh: &str) -> MonsterData {
    MonsterData {
        name: name.to_string(),
        name_zh: name_zh.to_string(),
        skills: vec![MonsterSubItem {
            name: "bite".to_string(),
            description: "ouch".to_string(),
            image: "s.png".to_string(),
        }],
        items: Vec::new(),
        image: "m.png".to_string(),
    }
}

#[test]
fn search_monsters_is_case_insensitive() {
    let mut db = MonsterMap::new();
    db.insert("M1".to_string(), monster("Fire Drake", "火龙"));
    db.insert("M2".to_string(), monster("Mud Crab", "泥蟹"));
    let hits = search_monsters("drake", &db);
    assert_eq!(hits.len(), 1);
    assert_eq!(hits[0].name, "Fire Drake");
    let zh = search_monsters("泥", &db);
    assert_eq!(zh.len(), 1);
    assert_eq!(zh[0].name, "Mud Crab");
    assert!(search_monsters("kraken", &db).is_empty());
    let both = search_monsters("R", &db);
    assert_eq!(both.len(), 2);
}

#[test]
fn db_state_holds_both_catalogs() {
    let mut items = ItemMap::new();
    items.insert("T001".to_string(), item("宝剑"));
    let mut monsters = MonsterMap::new();
    monsters.insert("M1".to_string(), monster("Fire Drake", "火龙"));
    let db = DbState { items, monsters };
    assert!(lookup_item("T001", &db.items).is_some());
    assert_eq!(search_monsters("fire", &db.monsters).len(), 1);
}
