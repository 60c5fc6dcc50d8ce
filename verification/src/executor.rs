use vstd::prelude::*;

use crate::context::{vars_view, Ctx};
use crate::errors::{ErrView, PipeError};
use crate::expirable::Expirable;
use crate::pipeline::{ExprV, Input, Pipeline, Preview, Source, Stage};
use crate::project_path::joined;
use crate::shader::{uniform_of, UniformValue};

verus! {

/// The width and height, in pixels, of one on-screen preview tile.
pub const TILE_SIZE: usize = 200;

/// One resolved input binding of a draw: either a texture bound to a
/// numbered unit with its sampler uniform set to that unit, or a literal
/// value bound directly.
#[derive(Debug, PartialEq)]
pub enum Binding {
    Tex { uniform: String, unit: usize, handle: u64 },
    Value { uniform: String, value: UniformValue },
}

/// The mathematical value of a resolved binding.
#[verifier::ext_equal]
pub enum BindingM {
    Tex { uniform: Seq<char>, unit: int, handle: u64 },
    Value { uniform: Seq<char>, value: UniformValue },
}

impl View for Binding {
    type V = BindingM;

    open spec fn view(&self) -> BindingM {
        match self {
            Binding::Tex { uniform, unit, handle } => BindingM::Tex {
                uniform: uniform@,
                unit: *unit as int,
                handle: *handle,
            },
            Binding::Value { uniform, value } => BindingM::Value {
                uniform: uniform@,
                value: *value,
            },
        }
    }
}

/// Resolving a stage's inputs either yields the bindings plus the next free
/// texture unit, or stops at the first failing input.
#[verifier::ext_equal]
pub enum BindOutcome {
    Bound(Seq<BindingM>, int),
    Failed(ErrView),
}

/// Resolving one input against the textures and variables of the cache.
/// Texture-backed inputs take the next unit in declaration order; a
/// `Memory` name that is no texture falls back to the variables and
/// consumes no unit; a literal is bound directly.
pub open spec fn input_bound(
    textures: Map<Seq<char>, Expirable<u64>>,
    vars: Map<Seq<char>, ExprV>,
    acc: Seq<BindingM>,
    unit: int,
    input: Input,
) -> BindOutcome {
    match input {
        Input::File { name, uniform } => {
            if textures.contains_key(name@) {
                BindOutcome::Bound(
                    acc.push(
                        BindingM::Tex { uniform: uniform@, unit, handle: textures[name@].data },
                    ),
                    unit + 1,
                )
            } else {
                BindOutcome::Failed(ErrView::UnknownResource(name@))
            }
        },
        Input::Memory { name, uniform } => {
            if textures.contains_key(name@) {
                BindOutcome::Bound(
                    acc.push(
                        BindingM::Tex { uniform: uniform@, unit, handle: textures[name@].data },
                    ),
                    unit + 1,
                )
            } else if vars.contains_key(name@) {
                match uniform_of(vars[name@]) {
                    Some(u) => BindOutcome::Bound(
                        acc.push(BindingM::Value { uniform: uniform@, value: u }),
                        unit,
                    ),
                    None => BindOutcome::Failed(
                        ErrView::Config(vars[name@]->ColorString_0),
                    ),
                }
            } else {
                BindOutcome::Failed(ErrView::UnknownResource(name@))
            }
        },
        Input::Expr { uniform, expr } => {
            match uniform_of(expr@) {
                Some(u) => BindOutcome::Bound(
                    acc.push(BindingM::Value { uniform: uniform@, value: u }),
                    unit,
                ),
                None => BindOutcome::Failed(ErrView::Config(expr@->ColorString_0)),
            }
        },
    }
}

/// Resolving a sequence of inputs in declaration order, stopping at the
/// first failure.
pub open spec fn inputs_bound(
    textures: Map<Seq<char>, Expirable<u64>>,
    vars: Map<Seq<char>, ExprV>,
    acc: Seq<BindingM>,
    unit: int,
    inputs: Seq<Input>,
) -> BindOutcome
    decreases inputs.len(),
{
    if inputs.len() == 0 {
        BindOutcome::Bound(acc, unit)
    } else {
        match inputs_bound(textures, vars, acc, unit, inputs.drop_last()) {
            BindOutcome::Failed(e) => BindOutcome::Failed(e),
            BindOutcome::Bound(acc1, u1) => input_bound(textures, vars, acc1, u1, inputs.last()),
        }
    }
}

/// What a stage's declared inputs resolve to, starting at texture unit 0.
pub open spec fn bindings_of(
    textures: Map<Seq<char>, Expirable<u64>>,
    vars: Map<Seq<char>, ExprV>,
    inputs: Seq<Input>,
) -> BindOutcome {
    inputs_bound(textures, vars, Seq::empty(), 0, inputs)
}

proof fn lemma_inputs_bound_bad_prefix(
    textures: Map<Seq<char>, Expirable<u64>>,
    vars: Map<Seq<char>, ExprV>,
    acc: Seq<BindingM>,
    unit: int,
    inputs: Seq<Input>,
    k: int,
    e: ErrView,
)
    requires
        0 <= k <= inputs.len(),
        inputs_bound(textures, vars, acc, unit, inputs.take(k)) == BindOutcome::Failed(e),
    ensures
        inputs_bound(textures, vars, acc, unit, inputs) == BindOutcome::Failed(e),
    decreases inputs.len(),
{
    if k < inputs.len() {
        assert(inputs.drop_last().take(k) =~= inputs.take(k));
        lemma_inputs_bound_bad_prefix(textures, vars, acc, unit, inputs.drop_last(), k, e);
    } else {
        assert(inputs.take(k) =~= inputs);
    }
}

/// Resolves a stage's inputs in declared order, assigning texture units
/// sequentially from 0 to the texture-backed inputs exactly as declared.
pub fn resolve_inputs(ctx: &Ctx, stage: &Stage) -> (r: Result<Vec<Binding>, PipeError>)
    ensures
        r is Ok ==> (bindings_of(ctx.textures@, vars_view(ctx.variables@), stage.inputs@)
            matches BindOutcome::Bound(bs, _u) && r->Ok_0@.map_values(|b: Binding| b@) == bs),
        r is Err ==> bindings_of(ctx.textures@, vars_view(ctx.variables@), stage.inputs@)
            == BindOutcome::Failed(r->Err_0@),
{
    let ghost txs = ctx.textures@;
    let ghost vs = vars_view(ctx.variables@);
    let mut out: Vec<Binding> = Vec::new();
    let mut unit: usize = 0;
    let mut j: usize = 0;
    while j < stage.inputs.len()
        invariant
            j <= stage.inputs.len(),
            unit <= j,
            txs == ctx.textures@,
            vs == vars_view(ctx.variables@),
            inputs_bound(txs, vs, Seq::empty(), 0, stage.inputs@.take(j as int))
                == BindOutcome::Bound(out@.map_values(|b: Binding| b@), unit as int),
        decreases stage.inputs.len() - j,
    {
        let ghost cur = out@.map_values(|b: Binding| b@);
        proof {
            assert(stage.inputs@.take(j + 1).drop_last() =~= stage.inputs@.take(j as int));
            assert(stage.inputs@.take(j + 1).last() == stage.inputs@[j as int]);
        }
        match &stage.inputs[j] {
            Input::File { name, uniform } => {
                match ctx.textures.get(name) {
                    Some(entry) => {
                        let b = Binding::Tex {
                            uniform: uniform.clone(),
                            unit,
                            handle: *entry.data(),
                        };
                        proof {
                            assert(out@.push(b).map_values(|x: Binding| x@) =~= cur.push(b@));
                        }
                        out.push(b);
                        unit += 1;
                    },
                    None => {
                        proof {
                            lemma_inputs_bound_bad_prefix(
                                txs,
                                vs,
                                Seq::empty(),
                                0,
                                stage.inputs@,
                                j + 1,
                                ErrView::UnknownResource(name@),
                            );
                        }
                        return Err(PipeError::UnknownResource(name.clone()));
                    },
                }
            },
            Input::Memory { name, uniform } => {
                match ctx.textures.get(name) {
                    Some(entry) => {
                        let b = Binding::Tex {
                            uniform: uniform.clone(),
                            unit,
                            handle: *entry.data(),
                        };
                        proof {
                            assert(out@.push(b).map_values(|x: Binding| x@) =~= cur.push(b@));
                        }
                        out.push(b);
                        unit += 1;
                    },
                    None => {
                        match ctx.variables.get(name) {
                            Some(expr) => {
                                proof {
                                    assert(vs.contains_key(name@) && vs[name@] == expr@);
                                }
                                match crate::shader::uniform_expr(expr) {
                                    Ok(u) => {
                                        let b = Binding::Value {
                                            uniform: uniform.clone(),
                                            value: u,
                                        };
                                        proof {
                                            assert(out@.push(b).map_values(|x: Binding| x@)
                                                =~= cur.push(b@));
                                        }
                                        out.push(b);
                                    },
                                    Err(e) => {
                                        proof {
                                            lemma_inputs_bound_bad_prefix(
                                                txs,
                                                vs,
                                                Seq::empty(),
                                                0,
                                                stage.inputs@,
                                                j + 1,
                                                e@,
                                            );
                                        }
                                        return Err(e);
                                    },
                                }
                            },
                            None => {
                                proof {
                                    assert(!vs.contains_key(name@));
                                    lemma_inputs_bound_bad_prefix(
                                        txs,
                                        vs,
                                        Seq::empty(),
                                        0,
                                        stage.inputs@,
                                        j + 1,
                                        ErrView::UnknownResource(name@),
                                    );
                                }
                                return Err(PipeError::UnknownResource(name.clone()));
                            },
                        }
                    },
                }
            },
            Input::Expr { uniform, expr } => {
                match crate::shader::uniform_expr(expr) {
                    Ok(u) => {
                        let b = Binding::Value { uniform: uniform.clone(), value: u };
                        proof {
                            assert(out@.push(b).map_values(|x: Binding| x@) =~= cur.push(b@));
                        }
                        out.push(b);
                    },
                    Err(e) => {
                        proof {
                            lemma_inputs_bound_bad_prefix(
                                txs,
                                vs,
                                Seq::empty(),
                                0,
                                stage.inputs@,
                                j + 1,
                                e@,
                            );
                        }
                        return Err(e);
                    },
                }
            },
        }
        j += 1;
    }
    proof {
        assert(stage.inputs@.take(stage.inputs@.len() as int) =~= stage.inputs@);
    }
    Ok(out)
}

/// Everything the render backend needs to run one stage: the program
/// handle, the resolved bindings in order, the render-target size, the
/// output file path when the destination is a file, and whether the draw is
/// timed.
pub struct StagePrep {
    pub shader_handle: u64,
    pub bindings: Vec<Binding>,
    pub width: u32,
    pub height: u32,
    pub output_file: Option<String>,
    pub profiled: bool,
}

/// Resolves everything one stage needs before its draw: the cached program
/// for its shader name — its absence is a configuration error — and its
/// bindings in declared order.
pub fn stage_prep(ctx: &Ctx, stage: &Stage) -> (r: Result<StagePrep, PipeError>)
    ensures
        r is Ok <==> (ctx.shaders@.contains_key(stage.shader@) && bindings_of(
            ctx.textures@,
            vars_view(ctx.variables@),
            stage.inputs@,
        ) is Bound),
        r is Ok ==> {
            let p = r->Ok_0;
            &&& p.shader_handle == ctx.shaders@[stage.shader@].data
            &&& (bindings_of(ctx.textures@, vars_view(ctx.variables@), stage.inputs@)
                matches BindOutcome::Bound(bs, _u) && p.bindings@.map_values(|b: Binding| b@)
                == bs)
            &&& p.width == stage.output.width
            &&& p.height == stage.output.height
            &&& (stage.output.dst is File ==> p.output_file is Some && p.output_file->0@
                == joined(ctx.project_path.dir@, stage.output.name@))
            &&& (stage.output.dst is Memory ==> p.output_file is None)
            &&& p.profiled == (stage.profiling is Clock)
        },
        r is Err ==> (!ctx.shaders@.contains_key(stage.shader@) && r->Err_0@ == ErrView::Config(
            stage.shader@,
        )) || (ctx.shaders@.contains_key(stage.shader@) && bindings_of(
            ctx.textures@,
            vars_view(ctx.variables@),
            stage.inputs@,
        ) == BindOutcome::Failed(r->Err_0@)),
{
    let shader_handle: u64 = match ctx.shaders.get(&stage.shader) {
        Some(entry) => *entry.data(),
        None => {
            return Err(PipeError::Config(stage.shader.clone()));
        },
    };
    let bindings = match resolve_inputs(ctx, stage) {
        Ok(bs) => bs,
        Err(e) => {
            return Err(e);
        },
    };
    let output_file = match stage.output.dst {
        Source::File => Some(ctx.project_path.path(stage.output.name.as_str())),
        Source::Memory => None,
    };
    let profiled = match stage.profiling {
        crate::pipeline::Profiling::Clock => true,
        crate::pipeline::Profiling::Disabled => false,
    };
    Ok(
        StagePrep {
            shader_handle,
            bindings,
            width: stage.output.width,
            height: stage.output.height,
            output_file,
            profiled,
        },
    )
}

/// Writes the just-rendered texture into the cache under the stage's output
/// name with the given fresh timestamp — whatever the destination, since a
/// later stage or the preview pass may read it back.
pub fn finish_stage(ctx: &mut Ctx, stage: &Stage, handle: u64, timestamp: u64)
    ensures
        final(ctx).textures@ == old(ctx).textures@.insert(
            stage.output.name@,
            Expirable { data: handle, created_at: timestamp },
        ),
        final(ctx).shaders == old(ctx).shaders,
        final(ctx).variables == old(ctx).variables,
        final(ctx).project_path == old(ctx).project_path,
        final(ctx).logs_enabled == old(ctx).logs_enabled,
{
    ctx.textures.insert(stage.output.name.clone(), Expirable::with_timestamp(handle, timestamp));
}

/// The mathematical value of one preview tile: which texture to show at
/// which tile position.
#[verifier::ext_equal]
pub struct TileM {
    pub handle: u64,
    pub index: int,
}

/// Laying out the preview tiles either yields one tile per preview-enabled
/// stage, in stage order, or names the first cached texture found missing.
#[verifier::ext_equal]
pub enum TileOutcome {
    Tiles(Seq<TileM>),
    Absent(Seq<char>),
}

/// One stage's contribution to the preview row: a preview-enabled stage
/// shows its output texture at the next tile index.
pub open spec fn tile_step(
    textures: Map<Seq<char>, Expirable<u64>>,
    ts: Seq<TileM>,
    stage: Stage,
) -> TileOutcome {
    if stage.output.preview is Simple {
        if textures.contains_key(stage.output.name@) {
            TileOutcome::Tiles(
                ts.push(TileM { handle: textures[stage.output.name@].data, index: ts.len() as int }),
            )
        } else {
            TileOutcome::Absent(stage.output.name@)
        }
    } else {
        TileOutcome::Tiles(ts)
    }
}

/// The preview row of a pass: tiles for the preview-enabled stages in
/// declared order, the tile index advancing only for them.
pub open spec fn tiles_of(
    textures: Map<Seq<char>, Expirable<u64>>,
    stages: Seq<Stage>,
    acc: Seq<TileM>,
) -> TileOutcome
    decreases stages.len(),
{
    if stages.len() == 0 {
        TileOutcome::Tiles(acc)
    } else {
        match tiles_of(textures, stages.drop_last(), acc) {
            TileOutcome::Absent(n) => TileOutcome::Absent(n),
            TileOutcome::Tiles(ts) => tile_step(textures, ts, stages.last()),
        }
    }
}

/// One entry of the preview row, ready to draw: the cached texture and the
/// horizontal pixel offset of its tile.
#[derive(Debug, PartialEq)]
pub struct PreviewTile {
    pub handle: u64,
    pub x_offset: usize,
}

proof fn lemma_tiles_of_bad_prefix(
    textures: Map<Seq<char>, Expirable<u64>>,
    stages: Seq<Stage>,
    acc: Seq<TileM>,
    k: int,
    n: Seq<char>,
)
    requires
        0 <= k <= stages.len(),
        tiles_of(textures, stages.take(k), acc) == TileOutcome::Absent(n),
    ensures
        tiles_of(textures, stages, acc) == TileOutcome::Absent(n),
    decreases stages.len(),
{
    if k < stages.len() {
        assert(stages.drop_last().take(k) =~= stages.take(k));
        lemma_tiles_of_bad_prefix(textures, stages.drop_last(), acc, k, n);
    } else {
        assert(stages.take(k) =~= stages);
    }
}

/// The preview row holds exactly one tile per preview-enabled stage: its
/// length is the pipeline's preview count, which callers size their display
/// surface by.
pub proof fn lemma_preview_row_matches_count(
    textures: Map<Seq<char>, Expirable<u64>>,
    stages: Seq<Stage>,
    ts: Seq<TileM>,
)
    requires
        tiles_of(textures, stages, Seq::empty()) == TileOutcome::Tiles(ts),
    ensures
        ts.len() == crate::pipeline::preview_count(stages),
    decreases stages.len(),
{
    if stages.len() > 0 {
        match tiles_of(textures, stages.drop_last(), Seq::empty()) {
            TileOutcome::Tiles(ts0) => {
                lemma_preview_row_matches_count(textures, stages.drop_last(), ts0);
            },
            TileOutcome::Absent(_) => {},
        }
    }
}

proof fn lemma_preview_count_prefix(stages: Seq<Stage>, k: int)
    requires
        0 <= k <= stages.len(),
    ensures
        crate::pipeline::preview_count(stages.take(k)) <= crate::pipeline::preview_count(stages),
    decreases stages.len(),
{
    if k < stages.len() {
        assert(stages.drop_last().take(k) =~= stages.take(k));
        lemma_preview_count_prefix(stages.drop_last(), k);
    } else {
        assert(stages.take(k) =~= stages);
    }
}

/// Lays out the preview row after a pass: one fixed-size tile per
/// preview-enabled stage, in declared order, each showing that stage's
/// now-current cached texture; a preview of a texture the cache does not
/// hold is an unknown-resource error.
pub fn preview_tiles(ctx: &Ctx, pipe: &Pipeline) -> (r: Result<Vec<PreviewTile>, PipeError>)
    requires
        crate::pipeline::preview_count(pipe.pipeline@) * TILE_SIZE <= usize::MAX,
    ensures
        r is Ok ==> (tiles_of(ctx.textures@, pipe.pipeline@, Seq::empty())
            matches TileOutcome::Tiles(ts) && r->Ok_0@.len() == ts.len() && forall|i: int|
            0 <= i < ts.len() ==> r->Ok_0@[i].handle == ts[i].handle && r->Ok_0@[i].x_offset
                == ts[i].index * TILE_SIZE),
        r is Err ==> (tiles_of(ctx.textures@, pipe.pipeline@, Seq::empty())
            matches TileOutcome::Absent(n) && r->Err_0@ == ErrView::UnknownResource(n)),
{
    let ghost txs = ctx.textures@;
    let mut out: Vec<PreviewTile> = Vec::new();
    let ghost mut ts: Seq<TileM> = Seq::empty();
    let mut i: usize = 0;
    while i < pipe.pipeline.len()
        invariant
            i <= pipe.pipeline.len(),
            txs == ctx.textures@,
            crate::pipeline::preview_count(pipe.pipeline@) * TILE_SIZE <= usize::MAX,
            tiles_of(txs, pipe.pipeline@.take(i as int), Seq::empty()) == TileOutcome::Tiles(ts),
            out@.len() == ts.len(),
            forall|k: int|
                0 <= k < ts.len() ==> out@[k].handle == ts[k].handle && out@[k].x_offset
                    == ts[k].index * TILE_SIZE,
        decreases pipe.pipeline.len() - i,
    {
        proof {
            assert(pipe.pipeline@.take(i + 1).drop_last() =~= pipe.pipeline@.take(i as int));
            assert(pipe.pipeline@.take(i + 1).last() == pipe.pipeline@[i as int]);
        }
        let stage = &pipe.pipeline[i];
        match stage.output.preview {
            Preview::Disabled => (),
            Preview::Simple => {
                match ctx.textures.get(&stage.output.name) {
                    Some(entry) => {
                        proof {
                            lemma_preview_row_matches_count(txs, pipe.pipeline@.take(i as int), ts);
                            lemma_preview_count_prefix(pipe.pipeline@, i as int);
                        }
                        let x_offset = out.len() * TILE_SIZE;
                        let tile = PreviewTile { handle: *entry.data(), x_offset };
                        out.push(tile);
                        proof {
                            ts = ts.push(
                                TileM { handle: txs[stage.output.name@].data, index: ts.len() as int },
                            );
                        }
                    },
                    None => {
                        proof {
                            lemma_tiles_of_bad_prefix(
                                txs,
                                pipe.pipeline@,
                                Seq::empty(),
                                i + 1,
                                stage.output.name@,
                            );
                        }
                        return Err(PipeError::UnknownResource(stage.output.name.clone()));
                    },
                }
            },
        }
        i += 1;
    }
    proof {
        assert(pipe.pipeline@.take(pipe.pipeline@.len() as int) =~= pipe.pipeline@);
    }
    Ok(out)
}

} // verus!
