use bevy_state::{
    derive_value, evaluate, evaluation_order, schedules, ConfigError, Engine, KindDef, Polarity,
    RequestError, Rule, Schedule, TransitionRecord,
};

const MENU: u64 = 0;
const COMBAT: u64 = 1;

fn rec(kind: usize, old: Option<u64>, new: Option<u64>) -> TransitionRecord {
    TransitionRecord { kind, old, new }
}

/// Mode (primary), Paused (sub of Mode, valid in Combat, default false),
/// ShowHud (computed: Mode == Combat && !Paused).
fn game_kinds() -> Vec<KindDef> {
    vec![
        KindDef::Primary { initial: MENU },
        KindDef::Sub { parent: 0, allowed: vec![COMBAT], default: 0 },
        KindDef::Computed {
            sources: vec![0, 1],
            rules: vec![Rule { pattern: vec![Some(COMBAT), Some(0)], out: 1 }],
            otherwise: 0,
        },
    ]
}

/// P (primary, starts at 2), S (sub of P, valid when P == 1, default 7),
/// C (computed from S: 70 when S == 7, else S's value is mapped to 0).
fn chain_kinds() -> Vec<KindDef> {
    vec![
        KindDef::Primary { initial: 2 },
        KindDef::Sub { parent: 0, allowed: vec![1], default: 7 },
        KindDef::Computed {
            sources: vec![1],
            rules: vec![Rule { pattern: vec![Some(7)], out: 70 }],
            otherwise: 0,
        },
    ]
}

#[test]
fn end_to_end_mode_paused_hud() {
    let mut e = Engine::new(game_kinds()).unwrap();
    assert_eq!(e.current(0), Some(MENU));
    assert_eq!(e.current(1), None);
    assert_eq!(e.current(2), None);

    e.scope_to(42, 0, COMBAT, Polarity::DespawnOnExit).unwrap();
    assert_eq!(e.request_transition(0, COMBAT), Ok(()));
    let gone = e.run_pass();
    assert!(gone.is_empty());
    assert_eq!(e.current(0), Some(COMBAT));
    assert_eq!(e.current(1), Some(0));
    assert_eq!(e.current(2), Some(1));
    assert_eq!(
        e.transitions().clone(),
        vec![rec(0, Some(MENU), Some(COMBAT)), rec(1, None, Some(0)), rec(2, None, Some(1))]
    );

    assert_eq!(e.request_transition(1, 1), Err(RequestError::NotPrimary));

    e.request_transition(0, MENU).unwrap();
    let gone = e.run_pass();
    assert_eq!(gone, vec![42]);
    assert_eq!(e.current(1), None);
    assert_eq!(e.current(2), None);
    assert_eq!(
        e.transitions().clone(),
        vec![rec(0, Some(COMBAT), Some(MENU)), rec(1, Some(0), None), rec(2, Some(1), None)]
    );
}

#[test]
fn chain_records_in_dependency_order() {
    let mut e = Engine::new(chain_kinds()).unwrap();
    assert_eq!(e.current(1), None);
    assert_eq!(e.current(2), None);
    e.request_transition(0, 1).unwrap();
    e.run_pass();
    assert_eq!(
        e.transitions().clone(),
        vec![rec(0, Some(2), Some(1)), rec(1, None, Some(7)), rec(2, None, Some(70))]
    );
}

#[test]
fn second_pass_without_requests_records_nothing() {
    let mut e = Engine::new(game_kinds()).unwrap();
    e.request_transition(0, COMBAT).unwrap();
    e.run_pass();
    assert_eq!(e.transitions().len(), 3);
    e.run_pass();
    assert!(e.transitions().is_empty());
    assert_eq!(e.current(0), Some(COMBAT));
    assert_eq!(e.current(1), Some(0));
    assert_eq!(e.current(2), Some(1));
}

#[test]
fn last_request_wins() {
    let mut e = Engine::new(game_kinds()).unwrap();
    e.request_transition(0, 5).unwrap();
    e.request_transition(0, COMBAT).unwrap();
    e.run_pass();
    assert_eq!(e.current(0), Some(COMBAT));
    assert_eq!(e.transitions()[0], rec(0, Some(MENU), Some(COMBAT)));
    assert_eq!(e.transitions().iter().filter(|r| r.kind == 0).count(), 1);
}

#[test]
fn last_request_equal_to_prior_records_nothing() {
    let mut e = Engine::new(game_kinds()).unwrap();
    e.request_transition(0, COMBAT).unwrap();
    e.request_transition(0, MENU).unwrap();
    e.run_pass();
    assert!(e.transitions().is_empty());
    assert_eq!(e.current(0), Some(MENU));
}

#[test]
fn exit_scope_survives_while_in_value() {
    let mut e = Engine::new(game_kinds()).unwrap();
    e.request_transition(0, COMBAT).unwrap();
    e.run_pass();
    e.scope_to(9, 0, COMBAT, Polarity::DespawnOnExit).unwrap();
    for _ in 0..3 {
        assert!(e.run_pass().is_empty());
    }
    e.request_transition(0, COMBAT).unwrap();
    assert!(e.run_pass().is_empty());
    e.request_transition(0, MENU).unwrap();
    assert_eq!(e.run_pass(), vec![9]);
    e.request_transition(0, COMBAT).unwrap();
    e.run_pass();
    e.request_transition(0, MENU).unwrap();
    assert!(e.run_pass().is_empty());
}

#[test]
fn exit_scope_not_fired_when_never_in_value() {
    let mut e = Engine::new(game_kinds()).unwrap();
    e.scope_to(3, 0, 7, Polarity::DespawnOnExit).unwrap();
    e.request_transition(0, COMBAT).unwrap();
    assert!(e.run_pass().is_empty());
    e.request_transition(0, MENU).unwrap();
    assert!(e.run_pass().is_empty());
}

#[test]
fn enter_scope_fires_on_entry() {
    let mut e = Engine::new(game_kinds()).unwrap();
    e.scope_to(5, 1, 0, Polarity::DespawnOnEnter).unwrap();
    e.scope_to(6, 2, 1, Polarity::DespawnOnEnter).unwrap();
    assert!(e.run_pass().is_empty());
    e.request_transition(0, COMBAT).unwrap();
    assert_eq!(e.run_pass(), vec![5, 6]);
}

#[test]
fn scope_to_unknown_kind_is_refused() {
    let mut e = Engine::new(game_kinds()).unwrap();
    assert_eq!(e.scope_to(1, 3, 0, Polarity::DespawnOnExit), Err(RequestError::UnknownKind));
}

#[test]
fn sub_absent_while_predicate_false() {
    let mut e = Engine::new(game_kinds()).unwrap();
    e.request_transition(0, 9).unwrap();
    e.run_pass();
    assert_eq!(e.current(1), None);
    assert_eq!(e.current(2), None);
    assert_eq!(e.transitions().clone(), vec![rec(0, Some(MENU), Some(9))]);
}

#[test]
fn sub_keeps_value_while_valid() {
    let kinds = vec![
        KindDef::Primary { initial: 1 },
        KindDef::Sub { parent: 0, allowed: vec![1, 2], default: 4 },
    ];
    let mut e = Engine::new(kinds).unwrap();
    assert_eq!(e.current(1), Some(4));
    e.request_transition(0, 2).unwrap();
    e.run_pass();
    assert_eq!(e.current(1), Some(4));
    assert_eq!(e.transitions().clone(), vec![rec(0, Some(1), Some(2))]);
}

#[test]
fn run_conditions() {
    let mut e = Engine::new(game_kinds()).unwrap();
    assert!(e.equals(0, MENU));
    assert!(!e.equals(0, COMBAT));
    assert!(!e.equals(1, 0));
    assert!(!e.equals(9, 0));
    assert!(!e.changed(0));
    e.request_transition(0, COMBAT).unwrap();
    assert!(!e.changed(0));
    e.run_pass();
    assert!(e.changed(0) && e.changed(1) && e.changed(2));
    assert!(e.changed(0));
    assert!(e.equals(1, 0));
    e.run_pass();
    assert!(!e.changed(0) && !e.changed(1) && !e.changed(2));
    assert_eq!(e.current(7), None);
}

#[test]
fn request_errors() {
    let mut e = Engine::new(game_kinds()).unwrap();
    assert_eq!(e.request_transition(3, 0), Err(RequestError::UnknownKind));
    assert_eq!(e.request_transition(2, 0), Err(RequestError::NotPrimary));
    e.run_pass();
    assert!(e.transitions().is_empty());
}

#[test]
fn requested_kinds_recorded_in_request_order() {
    let kinds = vec![KindDef::Primary { initial: 0 }, KindDef::Primary { initial: 0 }];
    let mut e = Engine::new(kinds).unwrap();
    e.request_transition(1, 5).unwrap();
    e.request_transition(0, 6).unwrap();
    e.request_transition(1, 8).unwrap();
    e.run_pass();
    assert_eq!(e.transitions().clone(), vec![rec(1, Some(0), Some(8)), rec(0, Some(0), Some(6))]);
}

#[test]
fn missing_source_rejected() {
    let kinds = vec![
        KindDef::Primary { initial: 0 },
        KindDef::Sub { parent: 5, allowed: vec![0], default: 0 },
    ];
    match Engine::new(kinds) {
        Err(ConfigError::MissingSource { kind }) => assert_eq!(kind, 1),
        _ => panic!("expected a missing source"),
    }
}

#[test]
fn sourceless_computed_rejected() {
    let kinds = vec![KindDef::Computed { sources: vec![], rules: vec![], otherwise: 0 }];
    match Engine::new(kinds) {
        Err(ConfigError::NoSource { kind }) => assert_eq!(kind, 0),
        _ => panic!("expected no source"),
    }
}

#[test]
fn cycle_rejected() {
    let kinds = vec![
        KindDef::Primary { initial: 0 },
        KindDef::Computed { sources: vec![0, 2], rules: vec![], otherwise: 0 },
        KindDef::Sub { parent: 1, allowed: vec![0], default: 0 },
    ];
    match Engine::new(kinds) {
        Err(ConfigError::Cycle { kinds }) => assert_eq!(kinds, vec![1, 2]),
        _ => panic!("expected a cycle"),
    }
}

#[test]
fn self_dependency_is_a_cycle() {
    let kinds = vec![KindDef::Sub { parent: 0, allowed: vec![0], default: 0 }];
    match Engine::new(kinds) {
        Err(ConfigError::Cycle { kinds }) => assert_eq!(kinds, vec![0]),
        _ => panic!("expected a cycle"),
    }
}

#[test]
fn order_puts_sources_first() {
    let kinds = vec![
        KindDef::Computed { sources: vec![2], rules: vec![], otherwise: 3 },
        KindDef::Primary { initial: 0 },
        KindDef::Sub { parent: 1, allowed: vec![0], default: 0 },
    ];
    let order = evaluation_order(&kinds).unwrap();
    assert_eq!(order, vec![1, 2, 0]);
    let mut e = Engine::new(kinds).unwrap();
    assert_eq!(e.current(0), Some(3));
    e.request_transition(1, 1).unwrap();
    e.run_pass();
    assert_eq!(
        e.transitions().clone(),
        vec![rec(1, Some(0), Some(1)), rec(2, Some(0), None), rec(0, Some(3), None)]
    );
}

#[test]
fn empty_registration() {
    let mut e = Engine::new(vec![]).unwrap();
    assert!(e.run_pass().is_empty());
    assert!(e.transitions().is_empty());
    assert_eq!(e.current(0), None);
}

#[test]
fn derive_first_matching_rule() {
    let rules = vec![
        Rule { pattern: vec![Some(1), None], out: 10 },
        Rule { pattern: vec![None, Some(2)], out: 20 },
    ];
    assert_eq!(derive_value(&rules, 99, &vec![1, 2]), 10);
    assert_eq!(derive_value(&rules, 99, &vec![0, 2]), 20);
    assert_eq!(derive_value(&rules, 99, &vec![0, 3]), 99);
    assert_eq!(derive_value(&rules, 99, &vec![1]), 99);
    assert!(Rule { pattern: vec![], out: 0 }.matches(&vec![]));
}

#[test]
fn evaluate_each_kind() {
    let sub = KindDef::Sub { parent: 0, allowed: vec![3], default: 8 };
    assert_eq!(evaluate(&sub, None, &vec![Some(3)]), Some(8));
    assert_eq!(evaluate(&sub, Some(5), &vec![Some(3)]), Some(5));
    assert_eq!(evaluate(&sub, Some(5), &vec![Some(4)]), None);
    assert_eq!(evaluate(&sub, Some(5), &vec![None]), None);
    let comp = KindDef::Computed {
        sources: vec![0, 1],
        rules: vec![Rule { pattern: vec![Some(1), Some(1)], out: 2 }],
        otherwise: 0,
    };
    assert_eq!(evaluate(&comp, None, &vec![Some(1), Some(1)]), Some(2));
    assert_eq!(evaluate(&comp, None, &vec![Some(1), Some(0)]), Some(0));
    assert_eq!(evaluate(&comp, Some(2), &vec![Some(1), None]), None);
    let prim = KindDef::Primary { initial: 0 };
    assert_eq!(evaluate(&prim, Some(6), &vec![]), Some(6));
}

#[test]
fn schedules_exit_then_transition_then_enter() {
    let recs = vec![rec(0, Some(0), Some(1)), rec(1, None, Some(0)), rec(2, Some(4), None)];
    assert_eq!(
        schedules(&recs),
        vec![
            Schedule::OnExit { kind: 0, value: 0 },
            Schedule::OnExit { kind: 2, value: 4 },
            Schedule::OnTransition { kind: 0, old: Some(0), new: Some(1) },
            Schedule::OnTransition { kind: 1, old: None, new: Some(0) },
            Schedule::OnTransition { kind: 2, old: Some(4), new: None },
            Schedule::OnEnter { kind: 0, value: 1 },
            Schedule::OnEnter { kind: 1, value: 0 },
        ]
    );
    assert!(schedules(&vec![]).is_empty());
}

#[test]
fn schedule_handles_match_pass_schedules() {
    let mut e = Engine::new(game_kinds()).unwrap();
    let enter_combat = e.on_enter(0, COMBAT).unwrap();
    let exit_menu = e.on_exit(0, MENU).unwrap();
    let moved = e.on_transition(0, Some(MENU), Some(COMBAT)).unwrap();
    assert_eq!(e.on_enter(3, 0), Err(RequestError::UnknownKind));
    assert_eq!(e.on_exit(3, 0), Err(RequestError::UnknownKind));
    assert_eq!(e.on_transition(3, None, None), Err(RequestError::UnknownKind));
    e.request_transition(0, COMBAT).unwrap();
    e.run_pass();
    let run = schedules(e.transitions());
    assert_eq!(run[0], exit_menu);
    assert_eq!(run[1], moved);
    assert!(run.contains(&enter_combat));
    assert!(run.iter().position(|s| *s == enter_combat).unwrap() > 3);
    assert_eq!(run.len(), 1 + 3 + 3);
}
