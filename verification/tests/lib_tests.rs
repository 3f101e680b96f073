use model_registry::config::Config;
use model_registry::json::{load_registry, save_registry};
use model_registry::ops::{
    commit_delete, commit_move, plan_delete, plan_move, show_model, Command, DeletePlan, MovePlan,
    ShowOutcome,
};
use model_registry::registry::{Record, Registry};
use model_registry::RegistryError;

fn rec(name: &str, path: &str) -> Record {
    Record { name: name.to_string(), path: path.to_string() }
}

fn sample() -> Registry {
    let mut reg = Registry::new();
    reg.upsert(rec("m", "/a"));
    reg.upsert(rec("big-model", "/data/big model"));
    reg.upsert(rec("weird\"name\\x", "/tmp/we\nird"));
    reg
}

#[test]
fn empty_contents_yield_empty_registry() {
    let reg = load_registry("").unwrap();
    assert_eq!(reg.len(), 0);
}

#[test]
fn empty_object_yields_empty_registry() {
    assert_eq!(load_registry("{}").unwrap().len(), 0);
    assert_eq!(load_registry("  {\n\t}  ").unwrap().len(), 0);
}

#[test]
fn malformed_json_fails_with_parse_error() {
    let bad = [
        "x",
        "{",
        "{\"a\"}",
        "{\"a\":1}",
        "{\"a\":{\"name\":\"a\"}}",
        "{\"a\":{\"path\":\"/p\"}}",
        "{\"a\":{\"name\":\"a\",\"path\":3}}",
        "[\"a\"]",
        "{} x",
        "{\"a\":{\"name\":\"a\",\"path\":\"/p\"}",
        "{\"a\":{\"name\":\"a\",\"path\":\"/p\"}} trailing",
        "{\"a\":{\"name\":\"a\",\"path\":\"/p\"},}",
    ];
    for text in bad.iter() {
        match load_registry(text) {
            Err(RegistryError::ParseError) => {}
            Err(other) => panic!("expected ParseError for {:?}, got {:?}", text, other),
            Ok(_) => panic!("expected ParseError for {:?}, got Ok", text),
        }
    }
}

#[test]
fn save_then_load_round_trips() {
    let reg = sample();
    let text = save_registry(&reg);
    let reg2 = load_registry(&text).unwrap();
    assert_eq!(reg2.len(), reg.len());
    for i in 0..reg.len() {
        let r = reg.record_at(i);
        let r2 = reg2.get(&r.name).unwrap();
        assert_eq!(r2.name, r.name);
        assert_eq!(r2.path, r.path);
    }
}

#[test]
fn empty_registry_round_trips() {
    let reg = Registry::new();
    let reg2 = load_registry(&save_registry(&reg)).unwrap();
    assert_eq!(reg2.len(), 0);
}

#[test]
fn encoding_is_exact() {
    let mut reg = Registry::new();
    reg.upsert(rec("m", "/a"));
    assert_eq!(save_registry(&reg), "{\"m\":{\"name\":\"m\",\"path\":\"/a\"}}");
    reg.upsert(rec("n", "/b"));
    assert_eq!(
        save_registry(&reg),
        "{\"m\":{\"name\":\"m\",\"path\":\"/a\"},\"n\":{\"name\":\"n\",\"path\":\"/b\"}}"
    );
}

#[test]
fn encoding_escapes_quotes_and_backslashes() {
    let mut reg = Registry::new();
    reg.upsert(rec("a\"b\\", "/p"));
    assert_eq!(save_registry(&reg), "{\"a\\\"b\\\\\":{\"name\":\"a\\\"b\\\\\",\"path\":\"/p\"}}");
}

#[test]
fn encoding_escapes_control_characters() {
    let mut reg = Registry::new();
    reg.upsert(rec("m", "a\nb\tc\rd\u{8}e\u{c}f\u{1}g\u{1f}h"));
    assert_eq!(
        save_registry(&reg),
        "{\"m\":{\"name\":\"m\",\"path\":\"a\\nb\\tc\\rd\\be\\ff\\u0001g\\u001fh\"}}"
    );
}

#[test]
fn control_characters_round_trip() {
    let mut reg = Registry::new();
    reg.upsert(rec("m\u{0}x", "/a\u{7f}\n\u{b}"));
    let reg2 = load_registry(&save_registry(&reg)).unwrap();
    assert_eq!(reg2.get(&"m\u{0}x".to_string()).unwrap().path, "/a\u{7f}\n\u{b}");
}

#[test]
fn parsing_handles_unicode_escapes() {
    let text = "{\"m\":{\"name\":\"m\",\"path\":\"\\u0041\\u00e9\\u00E9\\u2603\\b\\f\"}}";
    let reg = load_registry(text).unwrap();
    assert_eq!(reg.get(&"m".to_string()).unwrap().path, "A\u{e9}\u{e9}\u{2603}\u{8}\u{c}");
}

#[test]
fn bad_unicode_escapes_are_rejected() {
    let bad = [
        "{\"m\":{\"name\":\"m\",\"path\":\"\\ud834\"}}",
        "{\"m\":{\"name\":\"m\",\"path\":\"\\u12\"}}",
        "{\"m\":{\"name\":\"m\",\"path\":\"\\u12zz\"}}",
    ];
    for text in bad.iter() {
        match load_registry(text) {
            Err(e) => assert_eq!(e, RegistryError::ParseError),
            Ok(_) => panic!("expected ParseError for {:?}, got Ok", text),
        }
    }
}

#[test]
fn record_name_member_is_kept_and_checked_against_the_key() {
    let reg = load_registry("{\"a\":{\"name\":\"a\",\"path\":\"/p\"}}").unwrap();
    assert_eq!(reg.get(&"a".to_string()).unwrap().name, "a");
    // the registry keys records by name, so a mismatching name member is refused
    match load_registry("{\"a\":{\"name\":\"b\",\"path\":\"/p\"}}") {
        Err(e) => assert_eq!(e, RegistryError::ParseError),
        Ok(_) => panic!("expected ParseError for a name that differs from its key"),
    }
}

#[test]
fn unknown_member_values_must_be_json() {
    let bad = [
        "{\"a\":{\"name\":\"a\",\"path\":\"/p\",\"x\":tru}}",
        "{\"a\":{\"name\":\"a\",\"path\":\"/p\",\"x\":{]}}",
        "{\"a\":{\"name\":\"a\",\"path\":\"/p\",\"x\":[}}}",
        "{\"a\":{\"name\":\"a\",\"path\":\"/p\",\"x\":01}}",
        "{\"a\":{\"name\":\"a\",\"path\":\"/p\",\"x\":+1}}",
        "{\"a\":{\"name\":\"a\",\"path\":\"/p\",\"x\":.5}}",
        "{\"a\":{\"name\":\"a\",\"path\":\"/p\",\"x\":1.}}",
        "{\"a\":{\"name\":\"a\",\"path\":\"/p\",\"x\":1e}}",
        "{\"a\":{\"name\":\"a\",\"path\":\"/p\",\"x\":nul}}",
    ];
    for text in bad.iter() {
        match load_registry(text) {
            Err(RegistryError::ParseError) => {}
            other => panic!("expected ParseError for {:?}, got {:?}", text, other.is_ok()),
        }
    }
    let good = [
        "{\"a\":{\"name\":\"a\",\"path\":\"/p\",\"x\":true}}",
        "{\"a\":{\"name\":\"a\",\"path\":\"/p\",\"x\":false}}",
        "{\"a\":{\"name\":\"a\",\"path\":\"/p\",\"x\":null}}",
        "{\"a\":{\"name\":\"a\",\"path\":\"/p\",\"x\":0}}",
        "{\"a\":{\"name\":\"a\",\"path\":\"/p\",\"x\":-1.5e3}}",
        "{\"a\":{\"name\":\"a\",\"path\":\"/p\",\"x\":0.5E+10}}",
        "{\"a\":{\"name\":\"a\",\"path\":\"/p\",\"x\":[[],{},\"s\",1,true]}}",
        "{\"a\":{\"name\":\"a\",\"path\":\"/p\",\"x\":{\"y\":[null]}}}",
    ];
    for text in good.iter() {
        let reg = load_registry(text).unwrap();
        assert_eq!(reg.get(&"a".to_string()).unwrap().path, "/p");
    }
}

#[test]
fn parsing_handles_escapes() {
    let text = "{\"m\":{\"name\":\"m\",\"path\":\"C:\\\\data\\n\\\"x\\\"\\/y\\t\\r\"}}";
    let reg = load_registry(text).unwrap();
    let r = reg.get(&"m".to_string()).unwrap();
    assert_eq!(r.path, "C:\\data\n\"x\"/y\t\r");
}

#[test]
fn unknown_members_and_whitespace_are_tolerated() {
    let text = " { \"m\" : { \"path\" : \"/a\" , \"meta\" : [ 1 , { \"x\" : \"}\" } , null ] , \
                \"name\" : \"m\" , \"num\" : -1.5e3 , \"flag\" : true } } ";
    let reg = load_registry(text).unwrap();
    assert_eq!(reg.len(), 1);
    let r = reg.get(&"m".to_string()).unwrap();
    assert_eq!(r.name, "m");
    assert_eq!(r.path, "/a");
}

#[test]
fn duplicate_names_keep_the_last_record() {
    let text = "{\"m\":{\"name\":\"m\",\"path\":\"/a\"},\"m\":{\"name\":\"m\",\"path\":\"/b\"}}";
    let reg = load_registry(text).unwrap();
    assert_eq!(reg.len(), 1);
    assert_eq!(reg.get(&"m".to_string()).unwrap().path, "/b");
}

#[test]
fn upsert_replaces_a_record_of_the_same_name() {
    let mut reg = Registry::new();
    reg.upsert(rec("m", "/a"));
    reg.upsert(rec("m", "/b"));
    assert_eq!(reg.len(), 1);
    assert_eq!(reg.get(&"m".to_string()).unwrap().path, "/b");
}

#[test]
fn show_present_returns_the_record() {
    let reg = sample();
    match show_model(&reg, &"m".to_string()) {
        ShowOutcome::Found(r) => {
            assert_eq!(r.name, "m");
            assert_eq!(r.path, "/a");
        }
        ShowOutcome::NotFound => panic!("expected the record to be found"),
    }
}

#[test]
fn show_absent_reports_not_found_and_alters_nothing() {
    let reg = sample();
    let before = save_registry(&reg);
    match show_model(&reg, &"nope".to_string()) {
        ShowOutcome::NotFound => {}
        ShowOutcome::Found(_) => panic!("expected not-found"),
    }
    assert_eq!(save_registry(&reg), before);
}

#[test]
fn move_absent_plans_nothing_and_saved_registry_is_unchanged() {
    let reg = sample();
    let before = save_registry(&reg);
    match plan_move(&reg, &"nope".to_string()) {
        MovePlan::NotFound => {}
        MovePlan::Rename { .. } => panic!("expected not-found"),
    }
    assert_eq!(save_registry(&reg), before);
}

#[test]
fn move_present_renames_and_updates_the_saved_registry() {
    // a stub filesystem: the set of directories that exist
    let mut dirs: Vec<String> = vec!["/a".to_string()];
    let mut reg = Registry::new();
    reg.upsert(rec("m", "/a"));
    let name = "m".to_string();
    let dest = "/b".to_string();
    match plan_move(&reg, &name) {
        MovePlan::Rename { from } => {
            assert_eq!(from, "/a");
            let pos = dirs.iter().position(|p| *p == from).unwrap();
            dirs.remove(pos);
            dirs.push(dest.clone());
            commit_move(&mut reg, &name, &dest);
        }
        MovePlan::NotFound => panic!("expected a rename plan"),
    }
    let saved = load_registry(&save_registry(&reg)).unwrap();
    let r = saved.get(&name).unwrap();
    assert_eq!(r.name, "m");
    assert_eq!(r.path, "/b");
    assert!(!dirs.contains(&"/a".to_string()));
    assert!(dirs.contains(&"/b".to_string()));
}

#[test]
fn delete_present_removes_record_and_directory() {
    let mut dirs: Vec<String> = vec!["/a".to_string(), "/keep".to_string()];
    let mut reg = Registry::new();
    reg.upsert(rec("m", "/a"));
    reg.upsert(rec("k", "/keep"));
    let name = "m".to_string();
    match plan_delete(&reg, &name) {
        DeletePlan::RemoveDir { path } => {
            assert_eq!(path, "/a");
            let pos = dirs.iter().position(|p| *p == path).unwrap();
            dirs.remove(pos);
            commit_delete(&mut reg, &name);
        }
        DeletePlan::NotFound => panic!("expected a removal plan"),
    }
    let saved = load_registry(&save_registry(&reg)).unwrap();
    assert!(saved.get(&name).is_none());
    assert_eq!(saved.len(), 1);
    assert!(!dirs.contains(&"/a".to_string()));
    assert!(dirs.contains(&"/keep".to_string()));
}

#[test]
fn delete_absent_plans_nothing_and_saved_registry_is_unchanged() {
    let reg = sample();
    let before = save_registry(&reg);
    match plan_delete(&reg, &"nope".to_string()) {
        DeletePlan::NotFound => {}
        DeletePlan::RemoveDir { .. } => panic!("expected not-found"),
    }
    assert_eq!(save_registry(&reg), before);
}

#[test]
fn config_new_keeps_both_locations() {
    let c = Config::new("registry.json", "data_models.json");
    assert_eq!(c.config_file, "registry.json");
    assert_eq!(c.data_models, "data_models.json");
}

#[test]
fn only_move_and_delete_are_mutating() {
    let show = Command::Show { name: "m".to_string() };
    let mv = Command::Move { name: "m".to_string(), dest: "/b".to_string() };
    let del = Command::Delete { name: "m".to_string() };
    assert!(!show.is_mutating());
    assert!(mv.is_mutating());
    assert!(del.is_mutating());
}
