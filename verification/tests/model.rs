use texture_wizard::errors::{error_text, same_error, PipeError};
use texture_wizard::expirable::Expirable;
use texture_wizard::names::{drain_filter, NameMap, NameSet};
use texture_wizard::orchestrator::{ErrorHold, LogAction};
use texture_wizard::pipeline::{Expr, Output, Pipeline, Preview, Profiling, Source, Stage};
use texture_wizard::project_path::ProjectPath;
use texture_wizard::shader::{decode_color, uniform_expr, UniformValue};

fn stage_with_preview(shader: &str, preview: Preview) -> Stage {
    Stage {
        shader: shader.into(),
        inputs: vec![],
        output: Output {
            dst: Source::Memory,
            name: format!("{shader}-out"),
            width: 8,
            height: 8,
            preview,
        },
        debug_shader: None,
        profiling: Profiling::Disabled,
    }
}

#[test]
fn test_expirable_timestamps() {
    let e = Expirable::with_timestamp(5u64, 100);
    assert_eq!(e.created_at(), 100);
    assert_eq!(*e.data(), 5);
    assert!(e.expired(101));
    assert!(!e.expired(100));
    assert!(!e.expired(99));
}

#[test]
fn test_expirable_now_keeps_data() {
    let e = Expirable::now(String::from("payload"));
    assert_eq!(e.data(), "payload");
}

#[test]
fn test_project_path_join() {
    let pp = ProjectPath::new("proj", "pipe.yaml");
    assert_eq!(pp.path("a.frag"), "proj/a.frag");
    assert_eq!(pp.main(), "proj/pipe.yaml");
}

#[test]
fn test_decode_color_exact() {
    assert_eq!(decode_color(&"#ff00ff".to_string()).unwrap(), (255, 0, 255));
    assert_eq!(decode_color(&"#000000".to_string()).unwrap(), (0, 0, 0));
    assert_eq!(decode_color(&"#7fb3c4".to_string()).unwrap(), (127, 179, 196));
}

#[test]
fn test_decode_color_rejects_malformed() {
    assert!(matches!(decode_color(&"ff00ff".to_string()), Err(PipeError::Config(_))));
    assert!(matches!(decode_color(&"#ff00f".to_string()), Err(PipeError::Config(_))));
    assert!(matches!(decode_color(&"#ff00fg".to_string()), Err(PipeError::Config(_))));
    assert!(matches!(decode_color(&"#FF00FF".to_string()), Err(PipeError::Config(_))));
    assert!(matches!(decode_color(&"#ff00ff0".to_string()), Err(PipeError::Config(_))));
}

#[test]
fn test_uniform_expr_values() {
    let f = 1.5f32.to_bits();
    assert_eq!(uniform_expr(&Expr::Float(f)).unwrap(), UniformValue::F1(f));
    assert_eq!(uniform_expr(&Expr::Vec2(1, 2)).unwrap(), UniformValue::F2(1, 2));
    assert_eq!(uniform_expr(&Expr::Vec3(1, 2, 3)).unwrap(), UniformValue::F3(1, 2, 3));
    assert_eq!(uniform_expr(&Expr::Vec4(1, 2, 3, 4)).unwrap(), UniformValue::F4(1, 2, 3, 4));
    assert_eq!(
        uniform_expr(&Expr::ColorString("#10ff02".into())).unwrap(),
        UniformValue::Rgb(16, 255, 2)
    );
    assert!(matches!(
        uniform_expr(&Expr::ColorString("nope".into())),
        Err(PipeError::Config(_))
    ));
}

#[test]
fn test_number_of_previews() {
    let pipe = Pipeline {
        pipeline: vec![
            stage_with_preview("a", Preview::Simple),
            stage_with_preview("b", Preview::Disabled),
            stage_with_preview("c", Preview::Simple),
        ],
        variables: vec![],
    };
    assert_eq!(pipe.number_of_previews(), 2);
    let empty = Pipeline { pipeline: vec![], variables: vec![] };
    assert_eq!(empty.number_of_previews(), 0);
}

#[test]
fn test_defaults() {
    assert_eq!(Preview::default(), Preview::Disabled);
    assert_eq!(Profiling::default(), Profiling::Disabled);
}

#[test]
fn test_error_text() {
    assert_eq!(error_text(&PipeError::Io("proj/a.frag".into())), "proj/a.frag");
    assert_eq!(error_text(&PipeError::CyclicInclusion("a.frag".into())), "a.frag");
}

#[test]
fn test_same_error() {
    let a = PipeError::UnknownResource("x".into());
    let b = PipeError::UnknownResource("x".into());
    let c = PipeError::UnknownResource("y".into());
    let d = PipeError::Io("x".into());
    assert!(same_error(&a, &b));
    assert!(!same_error(&a, &c));
    assert!(!same_error(&a, &d));
}

#[test]
fn test_error_hold_debounces() {
    let mut hold = ErrorHold::new();
    let e1 = || PipeError::Io("proj/a.frag".into());
    let e2 = || PipeError::UnknownResource("mid".into());

    let (act, logs) = hold.tick(Err(e1()));
    assert_eq!(act, LogAction::AnnounceError);
    assert!(!logs);

    let (act, logs) = hold.tick(Err(e1()));
    assert_eq!(act, LogAction::Quiet);
    assert!(!logs);

    let (act, logs) = hold.tick(Err(e2()));
    assert_eq!(act, LogAction::AnnounceError);
    assert!(!logs);

    let (act, logs) = hold.tick(Ok(()));
    assert_eq!(act, LogAction::AnnounceResolved);
    assert!(logs);

    let (act, logs) = hold.tick(Ok(()));
    assert_eq!(act, LogAction::Quiet);
    assert!(logs);
}

#[test]
fn test_name_map_basics() {
    let mut m: NameMap<u64> = NameMap::new();
    assert!(!m.contains_key(&"a".to_string()));
    m.insert("a".into(), 1);
    m.insert("b".into(), 2);
    m.insert("a".into(), 3);
    assert_eq!(m.get(&"a".to_string()), Some(&3));
    assert_eq!(m.get(&"b".to_string()), Some(&2));
    assert_eq!(m.get(&"c".to_string()), None);
}

#[test]
fn test_drain_filter_keeps_only_named() {
    let mut m: NameMap<u64> = NameMap::new();
    m.insert("a".into(), 1);
    m.insert("b".into(), 2);
    m.insert("c".into(), 3);
    let mut keep = NameSet::new();
    keep.insert("a".into());
    keep.insert("c".into());
    keep.insert("zzz".into());
    drain_filter(&mut m, &keep);
    assert!(m.contains_key(&"a".to_string()));
    assert!(!m.contains_key(&"b".to_string()));
    assert!(m.contains_key(&"c".to_string()));
    assert!(!m.contains_key(&"zzz".to_string()));
}

#[test]
fn test_name_set() {
    let mut s = NameSet::new();
    assert!(!s.contains(&"x".to_string()));
    s.insert("x".into());
    assert!(s.contains(&"x".to_string()));
    let d = s.duplicate();
    assert!(d.contains(&"x".to_string()));
}
