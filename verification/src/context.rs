use vstd::prelude::*;

use crate::errors::{ErrView, PipeError};
use crate::expirable::Expirable;
use crate::names::{drain_filter, NameMap, NameSet};
use crate::pipeline::{Expr, ExprV, Input, Pipeline, Preview, Source, Stage};
use crate::project_path::{joined, ProjectPath};

verus! {

/// An order to rebuild one shader program: expand `path`, compile and link
/// it, and hand the cache the resulting program handle.
#[derive(Debug, PartialEq)]
pub struct ShaderJob {
    pub name: String,
    pub path: String,
    pub debug_path: Option<String>,
}

/// An order to reload one image file from `path` into a texture named
/// `name`.
#[derive(Debug, PartialEq)]
pub struct ImageJob {
    pub name: String,
    pub path: String,
}

/// The mathematical value of a shader rebuild order.
#[verifier::ext_equal]
pub struct ShaderJobM {
    pub name: Seq<char>,
    pub path: Seq<char>,
    pub debug_path: Option<Seq<char>>,
}

/// The mathematical value of an image reload order.
#[verifier::ext_equal]
pub struct ImageJobM {
    pub name: Seq<char>,
    pub path: Seq<char>,
}

impl View for ShaderJob {
    type V = ShaderJobM;

    open spec fn view(&self) -> ShaderJobM {
        ShaderJobM {
            name: self.name@,
            path: self.path@,
            debug_path: match self.debug_path {
                Some(p) => Some(p@),
                None => None,
            },
        }
    }
}

impl View for ImageJob {
    type V = ImageJobM;

    open spec fn view(&self) -> ImageJobM {
        ImageJobM { name: self.name@, path: self.path@ }
    }
}

/// What one pass over the stages decides: which shaders to rebuild, which
/// images to reload, and which names the pass references.
#[verifier::ext_equal]
pub struct PlanState {
    pub shader_jobs: Seq<ShaderJobM>,
    pub image_jobs: Seq<ImageJobM>,
    pub sref: Set<Seq<char>>,
    pub tref: Set<Seq<char>>,
}

/// Planning either succeeds with a plan or stops at the first error.
#[verifier::ext_equal]
pub enum PlanOutcome {
    Good(PlanState),
    Bad(ErrView),
}

/// The plan of one refresh pass, ready for the caller to execute: rebuild
/// and reload orders in stage order, and the names the pass references,
/// which the cache is pruned to afterwards.
#[derive(Debug)]
pub struct RefreshPlan {
    pub shader_jobs: Vec<ShaderJob>,
    pub image_jobs: Vec<ImageJob>,
    pub shaders_referenced: NameSet,
    pub textures_referenced: NameSet,
}

impl View for RefreshPlan {
    type V = PlanState;

    open spec fn view(&self) -> PlanState {
        PlanState {
            shader_jobs: self.shader_jobs@.map_values(|j: ShaderJob| j@),
            image_jobs: self.image_jobs@.map_values(|j: ImageJob| j@),
            sref: self.shaders_referenced@,
            tref: self.textures_referenced@,
        }
    }
}

/// The state a fresh planning pass starts from: nothing to do, nothing
/// referenced yet.
pub open spec fn empty_plan() -> PlanState {
    PlanState {
        shader_jobs: Seq::empty(),
        image_jobs: Seq::empty(),
        sref: Set::empty(),
        tref: Set::empty(),
    }
}

/// Whether a rebuild of shader `name` is already planned.
pub open spec fn has_shader_job(jobs: Seq<ShaderJobM>, name: Seq<char>) -> bool {
    exists|i: int| 0 <= i < jobs.len() && jobs[i].name == name
}

/// Whether a reload of image `name` is already planned.
pub open spec fn has_image_job(jobs: Seq<ImageJobM>, name: Seq<char>) -> bool {
    exists|i: int| 0 <= i < jobs.len() && jobs[i].name == name
}

/// A cache entry must be (re)built when it is absent, or when its creation
/// time predates the backing file's modification time.
pub open spec fn entry_stale(m: Map<Seq<char>, Expirable<u64>>, name: Seq<char>, mtime: u64) -> bool {
    !m.contains_key(name) || m[name].created_at < mtime
}

/// The resource cache: programs and textures by name, each timestamped,
/// plus the pipeline-wide variables and the project location. Program and
/// texture contents live with the render backend; the cache tracks them by
/// numeric handle.
pub struct Ctx {
    pub project_path: ProjectPath,
    pub textures: NameMap<Expirable<u64>>,
    pub shaders: NameMap<Expirable<u64>>,
    pub variables: NameMap<Expr>,
    pub logs_enabled: bool,
}

/// The debug override path of a stage, resolved against the project
/// directory.
pub open spec fn debug_path_of(dir: Seq<char>, stage: Stage) -> Option<Seq<char>> {
    match stage.debug_shader {
        Some(p) => Some(joined(dir, p@)),
        None => None,
    }
}

/// Planning one stage's shader: its source file must be stattable; a
/// rebuild is ordered when the cached program is absent or stale and no
/// rebuild of the same name is planned yet; the name becomes referenced.
pub open spec fn shader_plan(
    ctx: Ctx,
    mtimes: Map<Seq<char>, u64>,
    st: PlanState,
    stage: Stage,
) -> PlanOutcome {
    let path = joined(ctx.project_path.dir@, stage.shader@);
    if !mtimes.contains_key(path) {
        PlanOutcome::Bad(ErrView::Io(path))
    } else {
        let st1 = if entry_stale(ctx.shaders@, stage.shader@, mtimes[path]) && !has_shader_job(
            st.shader_jobs,
            stage.shader@,
        ) {
            PlanState {
                shader_jobs: st.shader_jobs.push(
                    ShaderJobM {
                        name: stage.shader@,
                        path,
                        debug_path: debug_path_of(ctx.project_path.dir@, stage),
                    },
                ),
                ..st
            }
        } else {
            st
        };
        PlanOutcome::Good(PlanState { sref: st1.sref.insert(stage.shader@), ..st1 })
    }
}

/// Planning one input. A `File` input becomes referenced and is reloaded
/// when absent or stale; a cached entry requires a stattable backing file.
/// A `Memory` input must name something already referenced in this pass or
/// a declared variable. An `Expr` input needs nothing.
pub open spec fn input_plan(
    ctx: Ctx,
    mtimes: Map<Seq<char>, u64>,
    st: PlanState,
    input: Input,
) -> PlanOutcome {
    match input {
        Input::File { name, uniform: _ } => {
            let path = joined(ctx.project_path.dir@, name@);
            let st1 = PlanState { tref: st.tref.insert(name@), ..st };
            let job = ImageJobM { name: name@, path };
            if ctx.textures@.contains_key(name@) {
                if !mtimes.contains_key(path) {
                    PlanOutcome::Bad(ErrView::Io(path))
                } else if ctx.textures@[name@].created_at < mtimes[path] && !has_image_job(
                    st1.image_jobs,
                    name@,
                ) {
                    PlanOutcome::Good(
                        PlanState { image_jobs: st1.image_jobs.push(job), ..st1 },
                    )
                } else {
                    PlanOutcome::Good(st1)
                }
            } else {
                if !has_image_job(st1.image_jobs, name@) {
                    PlanOutcome::Good(
                        PlanState { image_jobs: st1.image_jobs.push(job), ..st1 },
                    )
                } else {
                    PlanOutcome::Good(st1)
                }
            }
        },
        Input::Memory { name, uniform: _ } => {
            if st.tref.contains(name@) || ctx.variables@.contains_key(name@) {
                PlanOutcome::Good(st)
            } else {
                PlanOutcome::Bad(ErrView::UnknownResource(name@))
            }
        },
        Input::Expr { .. } => PlanOutcome::Good(st),
    }
}

/// Planning a stage's inputs in declared order, stopping at the first
/// error.
pub open spec fn inputs_plan(
    ctx: Ctx,
    mtimes: Map<Seq<char>, u64>,
    st: PlanState,
    inputs: Seq<Input>,
) -> PlanOutcome
    decreases inputs.len(),
{
    if inputs.len() == 0 {
        PlanOutcome::Good(st)
    } else {
        match inputs_plan(ctx, mtimes, st, inputs.drop_last()) {
            PlanOutcome::Bad(e) => PlanOutcome::Bad(e),
            PlanOutcome::Good(st1) => input_plan(ctx, mtimes, st1, inputs.last()),
        }
    }
}

/// A Memory-destined or preview-enabled output becomes referenced; its
/// entry is written by the executor, not by the refresh pass.
pub open spec fn output_plan(st: PlanState, stage: Stage) -> PlanState {
    let st1 = if stage.output.dst is Memory {
        PlanState { tref: st.tref.insert(stage.output.name@), ..st }
    } else {
        st
    };
    if stage.output.preview is Simple {
        PlanState { tref: st1.tref.insert(stage.output.name@), ..st1 }
    } else {
        st1
    }
}

/// Planning one whole stage: shader, then inputs in order, then output.
pub open spec fn stage_plan(
    ctx: Ctx,
    mtimes: Map<Seq<char>, u64>,
    st: PlanState,
    stage: Stage,
) -> PlanOutcome {
    match shader_plan(ctx, mtimes, st, stage) {
        PlanOutcome::Bad(e) => PlanOutcome::Bad(e),
        PlanOutcome::Good(st1) => match inputs_plan(ctx, mtimes, st1, stage.inputs@) {
            PlanOutcome::Bad(e) => PlanOutcome::Bad(e),
            PlanOutcome::Good(st2) => PlanOutcome::Good(output_plan(st2, stage)),
        },
    }
}

/// Planning the stages in declared order, stopping at the first error.
pub open spec fn stages_plan(
    ctx: Ctx,
    mtimes: Map<Seq<char>, u64>,
    st: PlanState,
    stages: Seq<Stage>,
) -> PlanOutcome
    decreases stages.len(),
{
    if stages.len() == 0 {
        PlanOutcome::Good(st)
    } else {
        match stages_plan(ctx, mtimes, st, stages.drop_last()) {
            PlanOutcome::Bad(e) => PlanOutcome::Bad(e),
            PlanOutcome::Good(st1) => stage_plan(ctx, mtimes, st1, stages.last()),
        }
    }
}

/// What one refresh pass over `pipe` decides, given the cache `ctx` and the
/// modification times `mtimes` of the files involved.
pub open spec fn refresh_plan_spec(ctx: Ctx, pipe: Pipeline, mtimes: Map<Seq<char>, u64>) -> PlanOutcome {
    stages_plan(ctx, mtimes, empty_plan(), pipe.pipeline@)
}

/// The variables map after the declared variables are folded in, in
/// declaration order; a later declaration overrides an earlier one.
pub open spec fn vars_merged(m: Map<Seq<char>, ExprV>, vs: Seq<(String, Expr)>) -> Map<
    Seq<char>,
    ExprV,
>
    decreases vs.len(),
{
    if vs.len() == 0 {
        m
    } else {
        vars_merged(m, vs.drop_last()).insert(vs.last().0@, vs.last().1@)
    }
}

/// The values of a variables map, as mathematical expressions.
pub open spec fn vars_view(m: Map<Seq<char>, Expr>) -> Map<Seq<char>, ExprV> {
    m.map_values(|e: Expr| e@)
}

proof fn lemma_stages_plan_bad_prefix(
    ctx: Ctx,
    mtimes: Map<Seq<char>, u64>,
    st: PlanState,
    stages: Seq<Stage>,
    k: int,
    e: ErrView,
)
    requires
        0 <= k <= stages.len(),
        stages_plan(ctx, mtimes, st, stages.take(k)) == PlanOutcome::Bad(e),
    ensures
        stages_plan(ctx, mtimes, st, stages) == PlanOutcome::Bad(e),
    decreases stages.len(),
{
    if k < stages.len() {
        assert(stages.drop_last().take(k) =~= stages.take(k));
        lemma_stages_plan_bad_prefix(ctx, mtimes, st, stages.drop_last(), k, e);
    } else {
        assert(stages.take(k) =~= stages);
    }
}

proof fn lemma_inputs_plan_bad_prefix(
    ctx: Ctx,
    mtimes: Map<Seq<char>, u64>,
    st: PlanState,
    inputs: Seq<Input>,
    k: int,
    e: ErrView,
)
    requires
        0 <= k <= inputs.len(),
        inputs_plan(ctx, mtimes, st, inputs.take(k)) == PlanOutcome::Bad(e),
    ensures
        inputs_plan(ctx, mtimes, st, inputs) == PlanOutcome::Bad(e),
    decreases inputs.len(),
{
    if k < inputs.len() {
        assert(inputs.drop_last().take(k) =~= inputs.take(k));
        lemma_inputs_plan_bad_prefix(ctx, mtimes, st, inputs.drop_last(), k, e);
    } else {
        assert(inputs.take(k) =~= inputs);
    }
}

fn shader_job_planned(jobs: &Vec<ShaderJob>, name: &String) -> (r: bool)
    ensures
        r == has_shader_job(jobs@.map_values(|j: ShaderJob| j@), name@),
{
    let ghost jm = jobs@.map_values(|j: ShaderJob| j@);
    let mut i: usize = 0;
    while i < jobs.len()
        invariant
            i <= jobs.len(),
            jm == jobs@.map_values(|j: ShaderJob| j@),
            forall|k: int| 0 <= k < i ==> jm[k].name != name@,
        decreases jobs.len() - i,
    {
        if jobs[i].name == *name {
            proof {
                assert(jm[i as int].name == name@);
            }
            return true;
        }
        i += 1;
    }
    false
}

fn image_job_planned(jobs: &Vec<ImageJob>, name: &String) -> (r: bool)
    ensures
        r == has_image_job(jobs@.map_values(|j: ImageJob| j@), name@),
{
    let ghost jm = jobs@.map_values(|j: ImageJob| j@);
    let mut i: usize = 0;
    while i < jobs.len()
        invariant
            i <= jobs.len(),
            jm == jobs@.map_values(|j: ImageJob| j@),
            forall|k: int| 0 <= k < i ==> jm[k].name != name@,
        decreases jobs.len() - i,
    {
        if jobs[i].name == *name {
            proof {
                assert(jm[i as int].name == name@);
            }
            return true;
        }
        i += 1;
    }
    false
}

impl Ctx {
    /// An empty cache for the given project, with logging enabled.
    pub fn new(project_path: ProjectPath) -> (r: Ctx)
        ensures
            r.project_path == project_path,
            r.textures@ == Map::<Seq<char>, Expirable<u64>>::empty(),
            r.shaders@ == Map::<Seq<char>, Expirable<u64>>::empty(),
            r.variables@ == Map::<Seq<char>, Expr>::empty(),
            r.logs_enabled,
    {
        Ctx {
            project_path,
            textures: NameMap::new(),
            shaders: NameMap::new(),
            variables: NameMap::new(),
            logs_enabled: true,
        }
    }

    /// Folds the pipeline's declared variables into the cache's variables
    /// map, in declaration order.
    pub fn refresh_variables(&mut self, pipe: &Pipeline)
        ensures
            vars_view(final(self).variables@) == vars_merged(
                vars_view(old(self).variables@),
                pipe.variables@,
            ),
            final(self).project_path == old(self).project_path,
            final(self).textures == old(self).textures,
            final(self).shaders == old(self).shaders,
            final(self).logs_enabled == old(self).logs_enabled,
    {
        let mut i: usize = 0;
        while i < pipe.variables.len()
            invariant
                i <= pipe.variables.len(),
                vars_view(self.variables@) == vars_merged(
                    vars_view(old(self).variables@),
                    pipe.variables@.take(i as int),
                ),
                self.project_path == old(self).project_path,
                self.textures == old(self).textures,
                self.shaders == old(self).shaders,
                self.logs_enabled == old(self).logs_enabled,
            decreases pipe.variables.len() - i,
        {
            proof {
                assert(pipe.variables@.take(i + 1).drop_last() =~= pipe.variables@.take(i as int));
                assert(pipe.variables@.take(i + 1).last() == pipe.variables@[i as int]);
            }
            let name = pipe.variables[i].0.clone();
            let value = pipe.variables[i].1.duplicate();
            proof {
                assert(vars_view(self.variables@.insert(name@, value)) =~= vars_view(
                    self.variables@,
                ).insert(pipe.variables@[i as int].0@, pipe.variables@[i as int].1@));
            }
            self.variables.insert(name, value);
            i += 1;
        }
        proof {
            assert(pipe.variables@.take(pipe.variables@.len() as int) =~= pipe.variables@);
        }
    }

    /// Walks the stages in declared order and decides, against the given
    /// file modification times, which shaders must be rebuilt and which
    /// images reloaded, gathering the names this pass references; fails
    /// with an unknown-resource error on a `Memory` input with no earlier
    /// producer or variable, and with an IO error on a file that could not
    /// be statted.
    pub fn plan_refresh(&self, pipe: &Pipeline, mtimes: &NameMap<u64>) -> (r: Result<
        RefreshPlan,
        PipeError,
    >)
        ensures
            r is Ok ==> refresh_plan_spec(*self, *pipe, mtimes@) == PlanOutcome::Good(r->Ok_0@),
            r is Err ==> refresh_plan_spec(*self, *pipe, mtimes@) == PlanOutcome::Bad(r->Err_0@),
    {
        let ghost m = mtimes@;
        let mut plan = RefreshPlan {
            shader_jobs: Vec::new(),
            image_jobs: Vec::new(),
            shaders_referenced: NameSet::new(),
            textures_referenced: NameSet::new(),
        };
        proof {
            assert(plan@ =~= empty_plan());
        }
        let mut i: usize = 0;
        while i < pipe.pipeline.len()
            invariant
                i <= pipe.pipeline.len(),
                m == mtimes@,
                stages_plan(*self, m, empty_plan(), pipe.pipeline@.take(i as int))
                    == PlanOutcome::Good(plan@),
            decreases pipe.pipeline.len() - i,
        {
            let ghost pre = plan@;
            let stage = &pipe.pipeline[i];

            // Shader: the source file must be stattable; rebuild when the
            // cached program is absent or stale.
            let path = self.project_path.path(stage.shader.as_str());
            let mtime: u64 = match mtimes.get(&path) {
                Some(t) => *t,
                None => {
                    proof {
                        assert(pipe.pipeline@.take(i + 1).drop_last() =~= pipe.pipeline@.take(
                            i as int,
                        ));
                        assert(pipe.pipeline@.take(i + 1).last() == pipe.pipeline@[i as int]);
                        lemma_stages_plan_bad_prefix(
                            *self,
                            m,
                            empty_plan(),
                            pipe.pipeline@,
                            i + 1,
                            ErrView::Io(path@),
                        );
                    }
                    return Err(PipeError::Io(path));
                },
            };
            let stale = match self.shaders.get(&stage.shader) {
                Some(entry) => entry.expired(mtime),
                None => true,
            };
            if stale && !shader_job_planned(&plan.shader_jobs, &stage.shader) {
                let debug_path = match &stage.debug_shader {
                    Some(p) => Some(self.project_path.path(p.as_str())),
                    None => None,
                };
                let job = ShaderJob { name: stage.shader.clone(), path, debug_path };
                proof {
                    assert(plan.shader_jobs@.push(job).map_values(|j: ShaderJob| j@)
                        =~= plan.shader_jobs@.map_values(|j: ShaderJob| j@).push(job@));
                }
                plan.shader_jobs.push(job);
            }
            plan.shaders_referenced.insert(stage.shader.clone());
            let ghost st_shader = plan@;
            proof {
                assert(shader_plan(*self, m, pre, pipe.pipeline@[i as int]) == PlanOutcome::Good(
                    st_shader,
                ));
            }

            // Inputs, in declared order.
            let mut j: usize = 0;
            while j < stage.inputs.len()
                invariant
                    j <= stage.inputs.len(),
                    m == mtimes@,
                    i < pipe.pipeline.len(),
                    *stage == pipe.pipeline@[i as int],
                    stages_plan(*self, m, empty_plan(), pipe.pipeline@.take(i as int))
                        == PlanOutcome::Good(pre),
                    shader_plan(*self, m, pre, pipe.pipeline@[i as int]) == PlanOutcome::Good(
                        st_shader,
                    ),
                    inputs_plan(*self, m, st_shader, stage.inputs@.take(j as int))
                        == PlanOutcome::Good(plan@),
                decreases stage.inputs.len() - j,
            {
                let ghost st_in = plan@;
                proof {
                    assert(stage.inputs@.take(j + 1).drop_last() =~= stage.inputs@.take(j as int));
                    assert(stage.inputs@.take(j + 1).last() == stage.inputs@[j as int]);
                }
                match &stage.inputs[j] {
                    Input::File { name, uniform: _ } => {
                        let ipath = self.project_path.path(name.as_str());
                        plan.textures_referenced.insert(name.clone());
                        let reload: bool = match self.textures.get(name) {
                            Some(entry) => {
                                match mtimes.get(&ipath) {
                                    None => {
                                        proof {
                                            lemma_inputs_plan_bad_prefix(
                                                *self,
                                                m,
                                                st_shader,
                                                stage.inputs@,
                                                j + 1,
                                                ErrView::Io(ipath@),
                                            );
                                            assert(stage_plan(
                                                *self,
                                                m,
                                                pre,
                                                pipe.pipeline@[i as int],
                                            ) == PlanOutcome::Bad(ErrView::Io(ipath@)));
                                            assert(pipe.pipeline@.take(i + 1).drop_last()
                                                =~= pipe.pipeline@.take(i as int));
                                            assert(pipe.pipeline@.take(i + 1).last()
                                                == pipe.pipeline@[i as int]);
                                            lemma_stages_plan_bad_prefix(
                                                *self,
                                                m,
                                                empty_plan(),
                                                pipe.pipeline@,
                                                i + 1,
                                                ErrView::Io(ipath@),
                                            );
                                        }
                                        return Err(PipeError::Io(ipath));
                                    },
                                    Some(t) => entry.expired(*t),
                                }
                            },
                            None => true,
                        };
                        if reload && !image_job_planned(&plan.image_jobs, name) {
                            let job = ImageJob { name: name.clone(), path: ipath };
                            proof {
                                assert(plan.image_jobs@.push(job).map_values(|jb: ImageJob| jb@)
                                    =~= plan.image_jobs@.map_values(|jb: ImageJob| jb@).push(
                                    job@,
                                ));
                            }
                            plan.image_jobs.push(job);
                        }
                        proof {
                            assert(input_plan(*self, m, st_in, stage.inputs@[j as int])
                                == PlanOutcome::Good(plan@));
                        }
                    },
                    Input::Memory { name, uniform: _ } => {
                        if !plan.textures_referenced.contains(name) && !self.variables.contains_key(
                            name,
                        ) {
                            proof {
                                lemma_inputs_plan_bad_prefix(
                                    *self,
                                    m,
                                    st_shader,
                                    stage.inputs@,
                                    j + 1,
                                    ErrView::UnknownResource(name@),
                                );
                                assert(pipe.pipeline@.take(i + 1).drop_last()
                                    =~= pipe.pipeline@.take(i as int));
                                assert(pipe.pipeline@.take(i + 1).last() == pipe.pipeline@[i as int]);
                                lemma_stages_plan_bad_prefix(
                                    *self,
                                    m,
                                    empty_plan(),
                                    pipe.pipeline@,
                                    i + 1,
                                    ErrView::UnknownResource(name@),
                                );
                            }
                            return Err(PipeError::UnknownResource(name.clone()));
                        }
                        proof {
                            assert(input_plan(*self, m, st_in, stage.inputs@[j as int])
                                == PlanOutcome::Good(plan@));
                        }
                    },
                    Input::Expr { .. } => {
                        proof {
                            assert(input_plan(*self, m, st_in, stage.inputs@[j as int])
                                == PlanOutcome::Good(plan@));
                        }
                    },
                }
                j += 1;
            }
            proof {
                assert(stage.inputs@.take(stage.inputs@.len() as int) =~= stage.inputs@);
            }

            // Output: a Memory-destined or preview-enabled output becomes
            // referenced.
            let ghost st_inputs = plan@;
            match stage.output.dst {
                Source::Memory => {
                    plan.textures_referenced.insert(stage.output.name.clone());
                },
                Source::File => (),
            }
            match stage.output.preview {
                Preview::Simple => {
                    plan.textures_referenced.insert(stage.output.name.clone());
                },
                Preview::Disabled => (),
            }
            proof {
                assert(output_plan(st_inputs, pipe.pipeline@[i as int]) == plan@);
                assert(stage_plan(*self, m, pre, pipe.pipeline@[i as int]) == PlanOutcome::Good(
                    plan@,
                ));
                assert(pipe.pipeline@.take(i + 1).drop_last() =~= pipe.pipeline@.take(i as int));
                assert(pipe.pipeline@.take(i + 1).last() == pipe.pipeline@[i as int]);
            }
            i += 1;
        }
        proof {
            assert(pipe.pipeline@.take(pipe.pipeline@.len() as int) =~= pipe.pipeline@);
        }
        Ok(plan)
    }

    /// Installs the results of the planned rebuilds and reloads — one
    /// `(handle, timestamp)` per job, in job order — then prunes every
    /// entry the pass did not reference. Returns whether anything had to be
    /// rebuilt or reloaded.
    pub fn apply_refresh(
        &mut self,
        plan: &RefreshPlan,
        shaders_built: &Vec<(u64, u64)>,
        images_loaded: &Vec<(u64, u64)>,
    ) -> (changed: bool)
        requires
            shaders_built@.len() == plan.shader_jobs@.len(),
            images_loaded@.len() == plan.image_jobs@.len(),
        ensures
            final(self).shaders@ == entries_installed(
                old(self).shaders@,
                plan@.shader_jobs.map_values(|j: ShaderJobM| j.name),
                shaders_built@,
            ).restrict(plan@.sref),
            final(self).textures@ == entries_installed(
                old(self).textures@,
                plan@.image_jobs.map_values(|j: ImageJobM| j.name),
                images_loaded@,
            ).restrict(plan@.tref),
            final(self).variables == old(self).variables,
            final(self).project_path == old(self).project_path,
            final(self).logs_enabled == old(self).logs_enabled,
            changed == (plan.shader_jobs@.len() > 0 || plan.image_jobs@.len() > 0),
    {
        let ghost snames = plan@.shader_jobs.map_values(|j: ShaderJobM| j.name);
        let ghost inames = plan@.image_jobs.map_values(|j: ImageJobM| j.name);
        let mut i: usize = 0;
        while i < plan.shader_jobs.len()
            invariant
                i <= plan.shader_jobs.len(),
                shaders_built@.len() == plan.shader_jobs@.len(),
                snames == plan@.shader_jobs.map_values(|j: ShaderJobM| j.name),
                self.shaders@ == entries_installed(
                    old(self).shaders@,
                    snames.take(i as int),
                    shaders_built@.take(i as int),
                ),
                self.textures == old(self).textures,
                self.variables == old(self).variables,
                self.project_path == old(self).project_path,
                self.logs_enabled == old(self).logs_enabled,
            decreases plan.shader_jobs.len() - i,
        {
            proof {
                assert(snames.take(i + 1).drop_last() =~= snames.take(i as int));
                assert(shaders_built@.take(i + 1).drop_last() =~= shaders_built@.take(i as int));
                assert(snames.take(i + 1).last() == plan.shader_jobs@[i as int]@.name);
                assert(shaders_built@.take(i + 1).last() == shaders_built@[i as int]);
            }
            let name = plan.shader_jobs[i].name.clone();
            let built = shaders_built[i];
            self.shaders.insert(name, Expirable::with_timestamp(built.0, built.1));
            i += 1;
        }
        proof {
            assert(snames.take(snames.len() as int) =~= snames);
            assert(shaders_built@.take(shaders_built@.len() as int) =~= shaders_built@);
        }
        let mut i: usize = 0;
        while i < plan.image_jobs.len()
            invariant
                i <= plan.image_jobs.len(),
                images_loaded@.len() == plan.image_jobs@.len(),
                inames == plan@.image_jobs.map_values(|j: ImageJobM| j.name),
                self.textures@ == entries_installed(
                    old(self).textures@,
                    inames.take(i as int),
                    images_loaded@.take(i as int),
                ),
                self.shaders@ == entries_installed(old(self).shaders@, snames, shaders_built@),
                self.variables == old(self).variables,
                self.project_path == old(self).project_path,
                self.logs_enabled == old(self).logs_enabled,
            decreases plan.image_jobs.len() - i,
        {
            proof {
                assert(inames.take(i + 1).drop_last() =~= inames.take(i as int));
                assert(images_loaded@.take(i + 1).drop_last() =~= images_loaded@.take(i as int));
                assert(inames.take(i + 1).last() == plan.image_jobs@[i as int]@.name);
                assert(images_loaded@.take(i + 1).last() == images_loaded@[i as int]);
            }
            let name = plan.image_jobs[i].name.clone();
            let loaded = images_loaded[i];
            self.textures.insert(name, Expirable::with_timestamp(loaded.0, loaded.1));
            i += 1;
        }
        proof {
            assert(inames.take(inames.len() as int) =~= inames);
            assert(images_loaded@.take(images_loaded@.len() as int) =~= images_loaded@);
        }
        drain_filter(&mut self.shaders, &plan.shaders_referenced);
        drain_filter(&mut self.textures, &plan.textures_referenced);
        plan.shader_jobs.len() > 0 || plan.image_jobs.len() > 0
    }
}

/// A cache map after fresh entries are written over it, one name and one
/// `(handle, timestamp)` pair at a time, in order.
pub open spec fn entries_installed(
    m: Map<Seq<char>, Expirable<u64>>,
    names: Seq<Seq<char>>,
    built: Seq<(u64, u64)>,
) -> Map<Seq<char>, Expirable<u64>>
    decreases names.len(),
{
    if names.len() == 0 || built.len() == 0 {
        m
    } else {
        entries_installed(m, names.drop_last(), built.drop_last()).insert(
            names.last(),
            Expirable { data: built.last().0, created_at: built.last().1 },
        )
    }
}

} // verus!
