use akaza::commands::{
    ibus_akaza_commands_map, lookup_command, commit_preedit, erase_character_before_cursor,
    set_input_mode_alnum, set_input_mode_hiragana, update_candidates, AkazaContext, Command,
    InputMode,
};
use akaza::cost::calc_cost;
use akaza::engine::{candidate_surface, candidate_word_ids, Engine};
use akaza::lattice::FALLBACK_COST;
use akaza::model::{BigramBuilder, UnigramBuilder, UnigramModel, BigramModel};
use akaza::overlay::UserOverlay;
use akaza::props::{IBusProperty, IBusPropertyPrivate};
use akaza::romaji::RomKanConverter;
use akaza::storage::{
    parse_bigram_model, parse_unigram_model, serialize_bigram_model, serialize_unigram_model,
    LoadError,
};
use akaza::text::str_chars;

fn chars(s: &str) -> Vec<char> {
    str_chars(s)
}

fn sample_models() -> (UnigramModel, BigramModel) {
    let mut ub = UnigramBuilder::new();
    assert!(ub.add(&chars("私"), &chars("わたし"), 500));
    assert!(ub.add(&chars("から"), &chars("から"), 300));
    assert!(ub.add(&chars("と"), &chars("と"), 250));
    let unigram = ub.build();

    let mut bb = BigramBuilder::new();
    assert!(bb.add(1, 2, 77));
    assert!(bb.add(1, 3, 150));
    bb.set_default_edge_cost(4000);
    (unigram, bb.build())
}

#[test]
fn test_load() {
    // the models travel through their file form before they are queried
    let (unigram0, bigram0) = sample_models();
    let ubytes = serialize_unigram_model(&unigram0);
    let bbytes = serialize_bigram_model(&bigram0);
    let unigram = parse_unigram_model(&ubytes).unwrap();
    let bigram = parse_bigram_model(&bbytes).unwrap();

    let (id1, score1) = unigram.find(&chars("私/わたし")).unwrap();
    assert!(id1 > 0);
    assert!(score1 > 0);

    let (id2, score2) = unigram.find(&chars("と/と")).unwrap();
    assert!(id2 > 0);
    assert!(score2 > 0);

    let bigram_score = bigram.get_edge_cost(id1, id2).unwrap();
    assert!(bigram_score > 0);
}

#[test]
fn unigram_find_miss_and_num_keys() {
    let (unigram, _) = sample_models();
    assert_eq!(unigram.num_keys(), 3);
    assert!(unigram.find(&chars("无/む")).is_none());
}

#[test]
fn edge_cost_default_exact() {
    let (_, bigram) = sample_models();
    assert_eq!(bigram.edge_cost(1, 2), 77);
    assert_eq!(bigram.edge_cost(2, 1), 4000);
    assert_eq!(bigram.edge_cost(999, 1000), 4000);
    assert!(bigram.get_edge_cost(2, 1).is_none());
    assert_eq!(bigram.num_keys(), 2);
}

#[test]
fn calc_cost_exact_and_monotone() {
    // cost = 1000 * (c + v + 1) / (n + 1)
    assert_eq!(calc_cost(0, 9, 2), 12000);
    assert_eq!(calc_cost(2, 9, 2), 4000);
    let c = 1000u32;
    let v = 50u32;
    let mut prev = calc_cost(0, c, v);
    for n in 1..20u32 {
        let cur = calc_cost(n, c, v);
        assert!(cur <= prev, "more frequent must not cost more");
        prev = cur;
    }
}

#[test]
fn watashi_kara_segmentation() {
    // reading わたしから with 私/わたし and から/から and a known bigram:
    // the best path is 私+から at exactly c1 + edge + c2, far below any
    // fallback segmentation
    let (unigram, bigram) = sample_models();
    let engine = Engine::new(unigram, bigram, UserOverlay::new(), 8);
    let (lat, cands) = engine.convert("わたしから", 10);
    assert_eq!(cands.len(), 1);
    let best = &cands[0];
    assert_eq!(best.total_cost, 500 + 77 + 300);
    assert_eq!(candidate_surface(&lat, best), "私から");
    assert!(best.total_cost < 5 * FALLBACK_COST + 4 * 4000);
}

#[test]
fn best_path_reading_reconstructs_input() {
    let (unigram, bigram) = sample_models();
    let engine = Engine::new(unigram, bigram, UserOverlay::new(), 8);
    let (lat, cands) = engine.convert("わたしから", 10);
    let mut reading = String::new();
    for &k in cands[0].nodes.iter() {
        let node_reading: String = lat.nodes[k].reading.iter().collect();
        reading.push_str(&node_reading);
    }
    assert_eq!(reading, "わたしから");
}

#[test]
fn empty_reading_gives_empty_path() {
    let (unigram, bigram) = sample_models();
    let engine = Engine::new(unigram, bigram, UserOverlay::new(), 8);
    let (_lat, cands) = engine.convert("", 5);
    assert_eq!(cands.len(), 1);
    assert!(cands[0].nodes.is_empty());
    assert_eq!(cands[0].total_cost, 0);
}

#[test]
fn unknown_reading_falls_back_to_kana() {
    let (unigram, bigram) = sample_models();
    let engine = Engine::new(unigram, bigram, UserOverlay::new(), 8);
    let (lat, cands) = engine.convert("ぬふ", 5);
    assert_eq!(cands.len(), 1);
    assert_eq!(cands[0].nodes.len(), 2);
    assert_eq!(candidate_surface(&lat, &cands[0]), "ぬふ");
    assert_eq!(cands[0].total_cost, 2 * FALLBACK_COST + 4000);
}

#[test]
fn candidates_are_sorted_by_cost() {
    let mut ub = UnigramBuilder::new();
    assert!(ub.add(&chars("渡し"), &chars("わたし"), 1000));
    assert!(ub.add(&chars("私"), &chars("わたし"), 2000));
    let unigram = ub.build();
    let mut bb = BigramBuilder::new();
    bb.set_default_edge_cost(4000);
    let engine = Engine::new(unigram, bb.build(), UserOverlay::new(), 8);
    let (lat, cands) = engine.convert("わたし", 10);
    assert_eq!(cands.len(), 2);
    assert!(cands[0].total_cost <= cands[1].total_cost);
    assert_eq!(candidate_surface(&lat, &cands[0]), "渡し");
    assert_eq!(cands[0].total_cost, 1000);
    assert_eq!(cands[1].total_cost, 2000);
}

#[test]
fn rank_improves_after_selection() {
    // recording a selection lifts it to the top; recording again changes
    // nothing more
    let mut ub = UnigramBuilder::new();
    assert!(ub.add(&chars("渡し"), &chars("わたし"), 1000));
    assert!(ub.add(&chars("私"), &chars("わたし"), 2000));
    let unigram = ub.build();
    let mut bb = BigramBuilder::new();
    bb.set_default_edge_cost(4000);
    let mut engine = Engine::new(unigram, bb.build(), UserOverlay::new(), 8);

    let (lat, cands) = engine.convert("わたし", 10);
    let rank_of = |lat: &akaza::lattice::Lattice, cands: &Vec<akaza::search::Candidate>| {
        cands
            .iter()
            .position(|c| candidate_surface(lat, c) == "私")
            .unwrap()
    };
    let before = rank_of(&lat, &cands);
    assert_eq!(before, 1);

    let chosen = cands
        .iter()
        .find(|c| candidate_surface(&lat, c) == "私")
        .unwrap();
    let ids = candidate_word_ids(&lat, chosen);
    engine.record_selection(&ids);

    let (lat2, cands2) = engine.convert("わたし", 10);
    let after = rank_of(&lat2, &cands2);
    assert!(after <= before, "no rank regression after reinforcement");
    assert_eq!(after, 0);

    engine.record_selection(&ids);
    let (lat3, cands3) = engine.convert("わたし", 10);
    assert_eq!(rank_of(&lat3, &cands3), after);
    let costs2: Vec<i64> = cands2.iter().map(|c| c.total_cost).collect();
    let costs3: Vec<i64> = cands3.iter().map(|c| c.total_cost).collect();
    assert_eq!(costs2, costs3, "reinforcement saturates after the first time");
}

#[test]
fn overlay_round_trip_reproduces_costs() {
    let mut o = UserOverlay::new();
    o.record_selection(&vec![Some(1), Some(2), None, Some(7)]);
    o.record_selection(&vec![Some(2), Some(9)]);
    let bytes = o.to_bytes();
    let o2 = UserOverlay::load_or_default(Some(bytes));
    for id in 0..12u32 {
        assert_eq!(o2.effective_cost(id, 5000), o.effective_cost(id, 5000));
        assert_eq!(o2.uni_count(id), o.uni_count(id));
        for id2 in 0..12u32 {
            assert_eq!(
                o2.effective_edge_cost(id, id2, 5000),
                o.effective_edge_cost(id, id2, 5000)
            );
        }
    }
}

#[test]
fn overlay_missing_file_gives_empty() {
    let o = UserOverlay::load_or_default(None);
    assert_eq!(o.effective_cost(3, 1234), 1234);
    assert_eq!(o.uni_count(3), 0);
}

#[test]
fn overlay_garbage_gives_empty() {
    let o = UserOverlay::load_or_default(Some(vec![1, 2, 3]));
    assert_eq!(o.uni_count(1), 0);
    let o2 = UserOverlay::load_or_default(Some(vec![0xff; 16]));
    assert_eq!(o2.uni_count(1), 0);
}

#[test]
fn model_file_round_trip() {
    let (unigram, _) = sample_models();
    let bytes = serialize_unigram_model(&unigram);
    let back = parse_unigram_model(&bytes).unwrap();
    assert_eq!(back.num_keys(), unigram.num_keys());
    assert_eq!(
        back.find(&chars("私/わたし")),
        unigram.find(&chars("私/わたし"))
    );
}

#[test]
fn model_load_rejects_bad_magic() {
    let (unigram, _) = sample_models();
    let mut bytes = serialize_unigram_model(&unigram);
    bytes[0] = bytes[0].wrapping_add(1);
    assert!(matches!(parse_unigram_model(&bytes), Err(LoadError::Corrupt)));
}

#[test]
fn model_load_rejects_version_mismatch() {
    let (unigram, bigram) = sample_models();
    let mut bytes = serialize_unigram_model(&unigram);
    bytes[4] = 9;
    assert!(matches!(parse_unigram_model(&bytes), Err(LoadError::VersionMismatch)));
    let mut bbytes = serialize_bigram_model(&bigram);
    bbytes[4] = 9;
    assert!(matches!(parse_bigram_model(&bbytes), Err(LoadError::VersionMismatch)));
}

#[test]
fn model_load_rejects_truncation() {
    let (unigram, _) = sample_models();
    let mut bytes = serialize_unigram_model(&unigram);
    bytes.pop();
    assert!(matches!(parse_unigram_model(&bytes), Err(LoadError::Corrupt)));
    let short = vec![0u8; 8];
    assert!(matches!(parse_unigram_model(&short), Err(LoadError::Corrupt)));
}

#[test]
fn commands_map_contents() {
    let map = ibus_akaza_commands_map();
    assert_eq!(map.len(), 5);
    assert_eq!(map[0].0, "commit_preedit");
    assert_eq!(map[0].1, Command::CommitPreedit);
    assert_eq!(map[1].0, "erase_character_before_cursor");
    assert_eq!(map[1].1, Command::EraseCharacterBeforeCursor);
    assert_eq!(map[2].0, "set_input_mode_hiragana");
    assert_eq!(map[2].1, Command::SetInputModeHiragana);
    assert_eq!(map[3].0, "set_input_mode_alnum");
    assert_eq!(map[3].1, Command::SetInputModeAlnum);
    assert_eq!(map[4].0, "update_candidates");
    assert_eq!(map[4].1, Command::UpdateCandidates);
    assert_eq!(
        lookup_command(&map, "update_candidates"),
        Some(Command::UpdateCandidates)
    );
    assert_eq!(lookup_command(&map, "no_such_command"), None);
}

#[test]
fn erase_on_pending_consonant_empties() {
    let rk = RomKanConverter::new();
    assert_eq!(rk.remove_last_char("k"), "");
}

#[test]
fn erase_on_complete_syllable_empties() {
    let rk = RomKanConverter::new();
    assert_eq!(rk.remove_last_char("ka"), "");
}

#[test]
fn erase_keeps_earlier_syllables() {
    let rk = RomKanConverter::new();
    assert_eq!(rk.remove_last_char("nihonka"), "nihon");
}

#[test]
fn erase_command_edits_preedit() {
    let mut ctx = AkazaContext::new();
    ctx.preedit = String::from("nihonka");
    erase_character_before_cursor(&mut ctx);
    assert_eq!(ctx.preedit, "nihon");
    ctx.in_henkan = true;
    erase_character_before_cursor(&mut ctx);
    assert_eq!(ctx.preedit, "nihon");
    assert!(!ctx.in_henkan);
}

#[test]
fn to_hiragana_basic() {
    let rk = RomKanConverter::new();
    assert_eq!(rk.to_hiragana("watasi"), "わたし");
    assert_eq!(rk.to_hiragana("nihon"), "にほん");
    assert_eq!(rk.to_hiragana("kara"), "から");
}

#[test]
fn commit_preedit_commits_hiragana() {
    let mut ctx = AkazaContext::new();
    ctx.preedit = String::from("watasi");
    let committed = commit_preedit(&mut ctx);
    assert_eq!(committed, "わたし");
    assert_eq!(ctx.preedit, "");
    assert!(!ctx.in_henkan);
}

#[test]
fn input_mode_commands_switch_mode() {
    let mut ctx = AkazaContext::new();
    set_input_mode_alnum(&mut ctx);
    assert_eq!(ctx.input_mode, InputMode::Alnum);
    set_input_mode_hiragana(&mut ctx);
    assert_eq!(ctx.input_mode, InputMode::Hiragana);
}

#[test]
fn update_candidates_end_to_end() {
    let (unigram, bigram) = sample_models();
    let engine = Engine::new(unigram, bigram, UserOverlay::new(), 8);
    let mut ctx = AkazaContext::new();
    ctx.preedit = String::from("watasikara");
    update_candidates(&mut ctx, &engine);
    assert!(ctx.in_henkan);
    assert!(!ctx.candidates.is_empty());
    let lat = ctx.lattice.as_ref().unwrap();
    assert_eq!(candidate_surface(lat, &ctx.candidates[0]), "私から");
}

#[test]
fn property_toggle_flips_state() {
    let _marker = IBusPropertyPrivate {};
    let mut p = IBusProperty::new(
        String::from("InputMode.Hiragana"),
        akaza::props::IBusPropType_PROP_TYPE_RADIO,
        akaza::props::IBusPropState_PROP_STATE_UNCHECKED,
    );
    assert!(p.visible);
    assert!(p.sensitive);
    p.toggle();
    assert_eq!(p.state, akaza::props::IBusPropState_PROP_STATE_CHECKED);
    p.toggle();
    assert_eq!(p.state, akaza::props::IBusPropState_PROP_STATE_UNCHECKED);
}

#[test]
fn viterbi_prefers_cheaper_segmentation() {
    // both a one-word and a two-word segmentation exist; the one-word path
    // is cheaper and must win, with both costs exact
    let mut ub = UnigramBuilder::new();
    assert!(ub.add(&chars("田"), &chars("た"), 100));
    assert!(ub.add(&chars("高"), &chars("たか"), 50));
    assert!(ub.add(&chars("蚊"), &chars("か"), 100));
    let unigram = ub.build();
    let mut bb = BigramBuilder::new();
    bb.set_default_edge_cost(30);
    let engine = Engine::new(unigram, bb.build(), UserOverlay::new(), 8);
    let (lat, cands) = engine.convert("たか", 10);
    assert_eq!(cands.len(), 2);
    assert_eq!(candidate_surface(&lat, &cands[0]), "高");
    assert_eq!(cands[0].total_cost, 50);
    assert_eq!(candidate_surface(&lat, &cands[1]), "田蚊");
    assert_eq!(cands[1].total_cost, 100 + 30 + 100);
}
