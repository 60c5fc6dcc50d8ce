use texture_wizard::context::Ctx;
use texture_wizard::errors::PipeError;
use texture_wizard::executor::{
    finish_stage, preview_tiles, resolve_inputs, stage_prep, Binding,
};
use texture_wizard::expirable::Expirable;
use texture_wizard::names::NameMap;
use texture_wizard::pipeline::{Expr, Input, Output, Pipeline, Preview, Profiling, Source, Stage};
use texture_wizard::project_path::ProjectPath;
use texture_wizard::shader::UniformValue;

fn stage_full(
    shader: &str,
    inputs: Vec<Input>,
    dst: Source,
    out_name: &str,
    preview: Preview,
    profiling: Profiling,
) -> Stage {
    Stage {
        shader: shader.into(),
        inputs,
        output: Output { dst, name: out_name.into(), width: 64, height: 64, preview },
        debug_shader: None,
        profiling,
    }
}

fn ctx() -> Ctx {
    Ctx::new(ProjectPath::new("proj", "pipe.yaml"))
}

fn mtimes_for(pipe: &Pipeline, files: &[(&str, u64)], t: u64) -> NameMap<u64> {
    let pp = ProjectPath::new("proj", "pipe.yaml");
    let mut m = NameMap::new();
    for st in &pipe.pipeline {
        m.insert(pp.path(&st.shader), t);
    }
    for (f, ft) in files {
        m.insert(pp.path(f), *ft);
    }
    m
}

fn refresh(ctx: &mut Ctx, pipe: &Pipeline, mtimes: &NameMap<u64>, seed: u64, ts: u64) -> bool {
    let plan = ctx.plan_refresh(pipe, mtimes).expect("refresh plan");
    let sres: Vec<(u64, u64)> =
        (0..plan.shader_jobs.len()).map(|i| (seed + i as u64, ts)).collect();
    let ires: Vec<(u64, u64)> =
        (0..plan.image_jobs.len()).map(|i| (seed + 100 + i as u64, ts)).collect();
    ctx.apply_refresh(&plan, &sres, &ires)
}

#[test]
fn test_units_assigned_in_declaration_order() {
    let mut c = ctx();
    c.textures.insert("img0".into(), Expirable::with_timestamp(40, 1));
    c.textures.insert("img1".into(), Expirable::with_timestamp(41, 1));
    let st = stage_full(
        "a.frag",
        vec![
            Input::File { name: "img0".into(), uniform: "u0".into() },
            Input::Expr { uniform: "lit".into(), expr: Expr::Float(7) },
            Input::Memory { name: "img1".into(), uniform: "u1".into() },
        ],
        Source::Memory,
        "out",
        Preview::Disabled,
        Profiling::Disabled,
    );
    let bs = resolve_inputs(&c, &st).unwrap();
    assert_eq!(bs.len(), 3);
    assert_eq!(bs[0], Binding::Tex { uniform: "u0".into(), unit: 0, handle: 40 });
    assert_eq!(bs[1], Binding::Value { uniform: "lit".into(), value: UniformValue::F1(7) });
    assert_eq!(bs[2], Binding::Tex { uniform: "u1".into(), unit: 1, handle: 41 });
}

#[test]
fn test_memory_variable_binds_without_unit() {
    let mut c = ctx();
    let pipe = Pipeline {
        pipeline: vec![],
        variables: vec![("tint".to_string(), Expr::ColorString("#0a0b0c".into()))],
    };
    c.refresh_variables(&pipe);
    let st = stage_full(
        "a.frag",
        vec![Input::Memory { name: "tint".into(), uniform: "u".into() }],
        Source::Memory,
        "out",
        Preview::Disabled,
        Profiling::Disabled,
    );
    let bs = resolve_inputs(&c, &st).unwrap();
    assert_eq!(
        bs[0],
        Binding::Value { uniform: "u".into(), value: UniformValue::Rgb(10, 11, 12) }
    );
}

#[test]
fn test_unknown_memory_input_fails() {
    let c = ctx();
    let st = stage_full(
        "a.frag",
        vec![Input::Memory { name: "nope".into(), uniform: "u".into() }],
        Source::Memory,
        "out",
        Preview::Disabled,
        Profiling::Disabled,
    );
    assert!(matches!(resolve_inputs(&c, &st), Err(PipeError::UnknownResource(n)) if n == "nope"));
}

#[test]
fn test_stage_prep_fields() {
    let mut c = ctx();
    c.shaders.insert("a.frag".into(), Expirable::with_timestamp(77, 5));
    let st = stage_full(
        "a.frag",
        vec![],
        Source::File,
        "out.png",
        Preview::Disabled,
        Profiling::Clock,
    );
    let prep = stage_prep(&c, &st).unwrap();
    assert_eq!(prep.shader_handle, 77);
    assert!(prep.bindings.is_empty());
    assert_eq!(prep.width, 64);
    assert_eq!(prep.height, 64);
    assert_eq!(prep.output_file.as_deref(), Some("proj/out.png"));
    assert!(prep.profiled);

    let st_mem = stage_full(
        "a.frag",
        vec![],
        Source::Memory,
        "mid",
        Preview::Disabled,
        Profiling::Disabled,
    );
    let prep2 = stage_prep(&c, &st_mem).unwrap();
    assert_eq!(prep2.output_file, None);
    assert!(!prep2.profiled);
}

#[test]
fn test_stage_prep_missing_shader_is_config_error() {
    let c = ctx();
    let st = stage_full(
        "ghost.frag",
        vec![],
        Source::Memory,
        "out",
        Preview::Disabled,
        Profiling::Disabled,
    );
    assert!(matches!(stage_prep(&c, &st), Err(PipeError::Config(n)) if n == "ghost.frag"));
}

#[test]
fn test_finish_stage_inserts_fresh_entry() {
    let mut c = ctx();
    let st = stage_full(
        "a.frag",
        vec![],
        Source::File,
        "out.png",
        Preview::Disabled,
        Profiling::Disabled,
    );
    finish_stage(&mut c, &st, 99, 123);
    let e = c.textures.get(&"out.png".to_string()).unwrap();
    assert_eq!(*e.data(), 99);
    assert_eq!(e.created_at(), 123);
}

#[test]
fn test_preview_tiles_layout() {
    let mut c = ctx();
    c.textures.insert("p0".into(), Expirable::with_timestamp(50, 1));
    c.textures.insert("p2".into(), Expirable::with_timestamp(52, 1));
    let pipe = Pipeline {
        pipeline: vec![
            stage_full("a", vec![], Source::Memory, "p0", Preview::Simple, Profiling::Disabled),
            stage_full("b", vec![], Source::Memory, "p1", Preview::Disabled, Profiling::Disabled),
            stage_full("c", vec![], Source::Memory, "p2", Preview::Simple, Profiling::Disabled),
        ],
        variables: vec![],
    };
    let tiles = preview_tiles(&c, &pipe).unwrap();
    assert_eq!(tiles.len(), 2);
    assert_eq!(tiles[0].handle, 50);
    assert_eq!(tiles[0].x_offset, 0);
    assert_eq!(tiles[1].handle, 52);
    assert_eq!(tiles[1].x_offset, 200);
    assert_eq!(tiles.len(), pipe.number_of_previews());
}

#[test]
fn test_preview_of_missing_texture_fails() {
    let c = ctx();
    let pipe = Pipeline {
        pipeline: vec![stage_full(
            "a",
            vec![],
            Source::Memory,
            "p0",
            Preview::Simple,
            Profiling::Disabled,
        )],
        variables: vec![],
    };
    assert!(matches!(preview_tiles(&c, &pipe), Err(PipeError::UnknownResource(n)) if n == "p0"));
}

#[test]
fn test_scenario_pass_through() {
    // One stage, a file input resampled into a 64x64 file output. The first
    // pass loads, compiles and draws; a second pass with no file changes
    // has nothing to rebuild, so no draw happens and the output stays.
    let pipe = Pipeline {
        pipeline: vec![stage_full(
            "pass.frag",
            vec![Input::File { name: "source.png".into(), uniform: "tex".into() }],
            Source::File,
            "out.png",
            Preview::Disabled,
            Profiling::Disabled,
        )],
        variables: vec![],
    };
    let mut c = ctx();
    let m = mtimes_for(&pipe, &[("source.png", 90)], 100);
    let changed = refresh(&mut c, &pipe, &m, 1, 100);
    assert!(changed);

    let prep = stage_prep(&c, &pipe.pipeline[0]).unwrap();
    assert_eq!(prep.width, 64);
    assert_eq!(prep.height, 64);
    assert_eq!(prep.output_file.as_deref(), Some("proj/out.png"));
    assert!(matches!(prep.bindings[0], Binding::Tex { unit: 0, .. }));
    finish_stage(&mut c, &pipe.pipeline[0], 200, 101);

    let plan2 = c.plan_refresh(&pipe, &m).unwrap();
    assert!(plan2.shader_jobs.is_empty() && plan2.image_jobs.is_empty());
    let changed2 = c.apply_refresh(&plan2, &vec![], &vec![]);
    assert!(!changed2);
}

#[test]
fn test_scenario_chain_rerender() {
    // Stage A renders into memory "mid"; stage B samples it. After touching
    // A's shader file, the whole pipeline re-executes, and B's bindings
    // pick up A's newly rendered texture, not the prior frame.
    let stage_a = stage_full(
        "a.frag",
        vec![],
        Source::Memory,
        "mid",
        Preview::Disabled,
        Profiling::Disabled,
    );
    let stage_b = stage_full(
        "b.frag",
        vec![Input::Memory { name: "mid".into(), uniform: "tex".into() }],
        Source::Memory,
        "out",
        Preview::Disabled,
        Profiling::Disabled,
    );
    let pipe = Pipeline { pipeline: vec![stage_a, stage_b], variables: vec![] };
    let mut c = ctx();
    let m = mtimes_for(&pipe, &[], 100);
    assert!(refresh(&mut c, &pipe, &m, 1, 100));

    // First execution: A renders handle 10, B samples it.
    finish_stage(&mut c, &pipe.pipeline[0], 10, 101);
    let prep_b = stage_prep(&c, &pipe.pipeline[1]).unwrap();
    assert_eq!(prep_b.bindings[0], Binding::Tex { uniform: "tex".into(), unit: 0, handle: 10 });
    finish_stage(&mut c, &pipe.pipeline[1], 11, 101);

    // Touch A's shader: only A's shader is rebuilt.
    let mut m2 = mtimes_for(&pipe, &[], 100);
    m2.insert("proj/a.frag".into(), 140);
    let plan = c.plan_refresh(&pipe, &m2).unwrap();
    assert_eq!(plan.shader_jobs.len(), 1);
    assert_eq!(plan.shader_jobs[0].name, "a.frag");
    assert!(c.apply_refresh(&plan, &vec![(21, 140)], &vec![]));

    // Re-execution: A renders a new texture; B must see the new handle.
    finish_stage(&mut c, &pipe.pipeline[0], 30, 141);
    let prep_b2 = stage_prep(&c, &pipe.pipeline[1]).unwrap();
    assert_eq!(prep_b2.bindings[0], Binding::Tex { uniform: "tex".into(), unit: 0, handle: 30 });
}
