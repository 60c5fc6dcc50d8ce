use texture_wizard::context::Ctx;
use texture_wizard::errors::PipeError;
use texture_wizard::names::NameMap;
use texture_wizard::pipeline::{Expr, Input, Output, Pipeline, Preview, Profiling, Source, Stage};
use texture_wizard::project_path::ProjectPath;

fn stage(shader: &str, inputs: Vec<Input>, dst: Source, out_name: &str) -> Stage {
    Stage {
        shader: shader.into(),
        inputs,
        output: Output {
            dst,
            name: out_name.into(),
            width: 16,
            height: 16,
            preview: Preview::Disabled,
        },
        debug_shader: None,
        profiling: Profiling::Disabled,
    }
}

fn ctx() -> Ctx {
    Ctx::new(ProjectPath::new("proj", "pipe.yaml"))
}

/// Stats for every shader of the pipe plus extra files, all at time `t`.
fn mtimes_for(pipe: &Pipeline, files: &[(&str, u64)], t: u64) -> NameMap<u64> {
    let pp = ProjectPath::new("proj", "pipe.yaml");
    let mut m = NameMap::new();
    for st in &pipe.pipeline {
        m.insert(pp.path(&st.shader), t);
    }
    for (f, ft) in files {
        m.insert(pp.path(f), *ft);
    }
    m
}

/// Runs one full refresh pass, handing every planned job a result with the
/// given handle seed and timestamp. Returns whether anything changed.
fn refresh(ctx: &mut Ctx, pipe: &Pipeline, mtimes: &NameMap<u64>, seed: u64, ts: u64) -> bool {
    let plan = ctx.plan_refresh(pipe, mtimes).expect("refresh plan");
    let sres: Vec<(u64, u64)> =
        (0..plan.shader_jobs.len()).map(|i| (seed + i as u64, ts)).collect();
    let ires: Vec<(u64, u64)> =
        (0..plan.image_jobs.len()).map(|i| (seed + 100 + i as u64, ts)).collect();
    ctx.apply_refresh(&plan, &sres, &ires)
}

#[test]
fn test_plan_builds_absent_shader() {
    let pipe = Pipeline {
        pipeline: vec![stage("a.frag", vec![], Source::Memory, "out")],
        variables: vec![],
    };
    let c = ctx();
    let m = mtimes_for(&pipe, &[], 100);
    let plan = c.plan_refresh(&pipe, &m).unwrap();
    assert_eq!(plan.shader_jobs.len(), 1);
    assert_eq!(plan.shader_jobs[0].name, "a.frag");
    assert_eq!(plan.shader_jobs[0].path, "proj/a.frag");
    assert!(plan.image_jobs.is_empty());
    assert!(plan.shaders_referenced.contains(&"a.frag".to_string()));
    assert!(plan.textures_referenced.contains(&"out".to_string()));
}

#[test]
fn test_refresh_idempotent() {
    // A second refresh with no filesystem change finds nothing to do and
    // keeps every timestamp.
    let pipe = Pipeline {
        pipeline: vec![
            stage("a.frag", vec![], Source::Memory, "mid"),
            stage("b.frag", vec![], Source::Memory, "out"),
        ],
        variables: vec![],
    };
    let mut c = ctx();
    let m = mtimes_for(&pipe, &[], 100);
    let changed = refresh(&mut c, &pipe, &m, 1, 100);
    assert!(changed);
    let ts_a = c.shaders.get(&"a.frag".to_string()).unwrap().created_at();
    let ts_b = c.shaders.get(&"b.frag".to_string()).unwrap().created_at();

    let plan2 = c.plan_refresh(&pipe, &m).unwrap();
    assert!(plan2.shader_jobs.is_empty());
    assert!(plan2.image_jobs.is_empty());
    let changed2 = c.apply_refresh(&plan2, &vec![], &vec![]);
    assert!(!changed2);
    assert_eq!(c.shaders.get(&"a.frag".to_string()).unwrap().created_at(), ts_a);
    assert_eq!(c.shaders.get(&"b.frag".to_string()).unwrap().created_at(), ts_b);
}

#[test]
fn test_staleness_propagation() {
    // Advancing one shader file's modification time rebuilds only that
    // shader; the other entry keeps its timestamp.
    let pipe = Pipeline {
        pipeline: vec![
            stage("a.frag", vec![], Source::Memory, "mid"),
            stage("b.frag", vec![], Source::Memory, "out"),
        ],
        variables: vec![],
    };
    let mut c = ctx();
    let m = mtimes_for(&pipe, &[], 100);
    refresh(&mut c, &pipe, &m, 1, 100);
    let ts_b = c.shaders.get(&"b.frag".to_string()).unwrap().created_at();

    let mut m2 = mtimes_for(&pipe, &[], 100);
    m2.insert("proj/a.frag".into(), 150);
    let plan = c.plan_refresh(&pipe, &m2).unwrap();
    assert_eq!(plan.shader_jobs.len(), 1);
    assert_eq!(plan.shader_jobs[0].name, "a.frag");
    assert!(plan.image_jobs.is_empty());
    let changed = c.apply_refresh(&plan, &vec![(9, 150)], &vec![]);
    assert!(changed);
    assert_eq!(c.shaders.get(&"a.frag".to_string()).unwrap().created_at(), 150);
    assert_eq!(c.shaders.get(&"b.frag".to_string()).unwrap().created_at(), ts_b);
}

#[test]
fn test_pruning_removed_stage() {
    // Dropping a stage from the pipe removes its entries by the end of the
    // next refresh.
    let full = Pipeline {
        pipeline: vec![
            stage("a.frag", vec![], Source::Memory, "mid"),
            stage("b.frag", vec![], Source::Memory, "out"),
        ],
        variables: vec![],
    };
    let mut c = ctx();
    let m = mtimes_for(&full, &[], 100);
    refresh(&mut c, &full, &m, 1, 100);
    assert!(c.shaders.contains_key(&"a.frag".to_string()));

    let reduced = Pipeline {
        pipeline: vec![stage("b.frag", vec![], Source::Memory, "out")],
        variables: vec![],
    };
    refresh(&mut c, &reduced, &m, 5, 100);
    assert!(!c.shaders.contains_key(&"a.frag".to_string()));
    assert!(c.shaders.contains_key(&"b.frag".to_string()));
}

#[test]
fn test_reference_validation() {
    // A Memory input may name what an earlier stage produced or a declared
    // variable; a forward or dangling reference fails.
    let mem_in = |name: &str| Input::Memory { name: name.into(), uniform: "tex".into() };

    let good = Pipeline {
        pipeline: vec![
            stage("a.frag", vec![], Source::Memory, "mid"),
            stage("b.frag", vec![mem_in("mid")], Source::Memory, "out"),
        ],
        variables: vec![],
    };
    let c = ctx();
    let m = mtimes_for(&good, &[], 100);
    assert!(c.plan_refresh(&good, &m).is_ok());

    let forward = Pipeline {
        pipeline: vec![
            stage("b.frag", vec![mem_in("mid")], Source::Memory, "out"),
            stage("a.frag", vec![], Source::Memory, "mid"),
        ],
        variables: vec![],
    };
    let m = mtimes_for(&forward, &[], 100);
    match c.plan_refresh(&forward, &m) {
        Err(PipeError::UnknownResource(n)) => assert_eq!(n, "mid"),
        other => panic!("expected an unknown-resource error, got {:?}", other),
    }

    let via_variable = Pipeline {
        pipeline: vec![stage("b.frag", vec![mem_in("speed")], Source::Memory, "out")],
        variables: vec![("speed".to_string(), Expr::Float(0))],
    };
    let mut c2 = ctx();
    c2.refresh_variables(&via_variable);
    let m = mtimes_for(&via_variable, &[], 100);
    assert!(c2.plan_refresh(&via_variable, &m).is_ok());

    let dangling = Pipeline {
        pipeline: vec![stage("b.frag", vec![mem_in("ghostly")], Source::Memory, "out")],
        variables: vec![],
    };
    let m = mtimes_for(&dangling, &[], 100);
    assert!(matches!(c.plan_refresh(&dangling, &m), Err(PipeError::UnknownResource(_))));
}

#[test]
fn test_file_input_reload() {
    let file_in = Input::File { name: "source.png".into(), uniform: "tex".into() };
    let pipe = Pipeline {
        pipeline: vec![stage("a.frag", vec![file_in], Source::Memory, "out")],
        variables: vec![],
    };
    let mut c = ctx();
    let m = mtimes_for(&pipe, &[("source.png", 100)], 100);
    let plan = c.plan_refresh(&pipe, &m).unwrap();
    assert_eq!(plan.image_jobs.len(), 1);
    assert_eq!(plan.image_jobs[0].name, "source.png");
    assert_eq!(plan.image_jobs[0].path, "proj/source.png");
    assert!(c.apply_refresh(&plan, &vec![(1, 100)], &vec![(2, 100)]));

    // Unchanged on disk: nothing to reload.
    let plan2 = c.plan_refresh(&pipe, &m).unwrap();
    assert!(plan2.image_jobs.is_empty());

    // Touched on disk: reloaded once.
    let m3 = mtimes_for(&pipe, &[("source.png", 130)], 100);
    let plan3 = c.plan_refresh(&pipe, &m3).unwrap();
    assert_eq!(plan3.image_jobs.len(), 1);
}

#[test]
fn test_missing_stat_is_io_error() {
    let pipe = Pipeline {
        pipeline: vec![stage("a.frag", vec![], Source::Memory, "out")],
        variables: vec![],
    };
    let c = ctx();
    let empty = NameMap::new();
    match c.plan_refresh(&pipe, &empty) {
        Err(PipeError::Io(p)) => assert_eq!(p, "proj/a.frag"),
        other => panic!("expected an IO error, got {:?}", other),
    }
}

#[test]
fn test_refresh_variables_merges_in_order() {
    let pipe = Pipeline {
        pipeline: vec![],
        variables: vec![
            ("x".to_string(), Expr::Float(1)),
            ("y".to_string(), Expr::Float(2)),
            ("x".to_string(), Expr::Float(3)),
        ],
    };
    let mut c = ctx();
    c.refresh_variables(&pipe);
    assert_eq!(c.variables.get(&"x".to_string()), Some(&Expr::Float(3)));
    assert_eq!(c.variables.get(&"y".to_string()), Some(&Expr::Float(2)));
}
