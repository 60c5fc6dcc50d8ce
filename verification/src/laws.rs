use vstd::prelude::*;

use crate::context::{
    entries_installed, has_image_job, has_shader_job, input_plan, inputs_plan, output_plan,
    refresh_plan_spec, shader_plan, stage_plan, stages_plan, Ctx, entry_stale, PlanOutcome,
    PlanState, ImageJobM, ShaderJobM, empty_plan,
};
use crate::pipeline::{Input, Pipeline, Stage};
use crate::project_path::joined;

verus! {

/// The shader names the stages bind.
pub open spec fn shader_names(stages: Seq<Stage>) -> Set<Seq<char>> {
    Set::new(|n: Seq<char>| exists|i: int| 0 <= i < stages.len() && stages[i].shader@ == n)
}

/// Whether an input is a `File` input of the given resource name.
pub open spec fn input_file_named(inp: Input, n: Seq<char>) -> bool {
    match inp {
        Input::File { name, .. } => name@ == n,
        _ => false,
    }
}

/// The resource names the stages load from image files.
pub open spec fn file_names(stages: Seq<Stage>) -> Set<Seq<char>> {
    Set::new(
        |n: Seq<char>|
            exists|i: int, j: int|
                0 <= i < stages.len() && 0 <= j < stages[i].inputs@.len() && input_file_named(
                    stages[i].inputs@[j],
                    n,
                ),
    )
}

/// The output names the stages keep in the cache: Memory-destined or
/// preview-enabled outputs.
pub open spec fn output_names(stages: Seq<Stage>) -> Set<Seq<char>> {
    Set::new(
        |n: Seq<char>|
            exists|i: int|
                0 <= i < stages.len() && stages[i].output.name@ == n && (stages[i].output.dst
                    is Memory || stages[i].output.preview is Simple),
    )
}

/// A `File` input whose texture the cache holds with a timestamp at or
/// after the backing file's known modification time.
pub open spec fn file_fresh(ctx: Ctx, m: Map<Seq<char>, u64>, inp: Input) -> bool {
    match inp {
        Input::File { name, .. } => {
            let p = joined(ctx.project_path.dir@, name@);
            ctx.textures@.contains_key(name@) && m.contains_key(p) && !(ctx.textures@[name@].created_at
                < m[p])
        },
        _ => true,
    }
}

/// A stage whose shader file is stattable, and whose cached program is
/// stale exactly when its name is in `sch`.
pub open spec fn shader_marked(ctx: Ctx, m: Map<Seq<char>, u64>, sch: Set<Seq<char>>, stage: Stage) -> bool {
    let n = stage.shader@;
    let p = joined(ctx.project_path.dir@, n);
    m.contains_key(p) && (entry_stale(ctx.shaders@, n, m[p]) <==> sch.contains(n))
}

/// Replays one stage's inputs in a cache where every `File` input is
/// fresh: the references evolve exactly as in the first run and no reload
/// is planned.
proof fn lemma_replan_inputs(
    ctx1: Ctx,
    ctx2: Ctx,
    m1: Map<Seq<char>, u64>,
    m2: Map<Seq<char>, u64>,
    ist1: PlanState,
    ist2: PlanState,
    inputs: Seq<Input>,
    ig1: PlanState,
)
    requires
        inputs_plan(ctx1, m1, ist1, inputs) == PlanOutcome::Good(ig1),
        forall|n: Seq<char>|
            ctx1.variables@.contains_key(n) == ctx2.variables@.contains_key(n),
        forall|j: int| 0 <= j < inputs.len() ==> file_fresh(ctx2, m2, #[trigger] inputs[j]),
        ist2.sref == ist1.sref,
        ist2.tref == ist1.tref,
        ist2.image_jobs == Seq::<ImageJobM>::empty(),
    ensures
        inputs_plan(ctx2, m2, ist2, inputs) == PlanOutcome::Good(
            PlanState {
                shader_jobs: ist2.shader_jobs,
                image_jobs: Seq::<ImageJobM>::empty(),
                sref: ig1.sref,
                tref: ig1.tref,
            },
        ),
    decreases inputs.len(),
{
    if inputs.len() == 0 {
        assert(ig1 == ist1);
        assert(ist2 =~= PlanState {
            shader_jobs: ist2.shader_jobs,
            image_jobs: Seq::<ImageJobM>::empty(),
            sref: ig1.sref,
            tref: ig1.tref,
        });
    } else {
        let prefix = inputs.drop_last();
        let last = inputs.last();
        match inputs_plan(ctx1, m1, ist1, prefix) {
            PlanOutcome::Good(mid1) => {
                assert(forall|j: int|
                    0 <= j < prefix.len() ==> file_fresh(ctx2, m2, #[trigger] prefix[j]))
                    by {
                    assert(forall|j: int| 0 <= j < prefix.len() ==> prefix[j] == inputs[j]);
                }
                lemma_replan_inputs(ctx1, ctx2, m1, m2, ist1, ist2, prefix, mid1);
                let mid2 = PlanState {
                    shader_jobs: ist2.shader_jobs,
                    image_jobs: Seq::<ImageJobM>::empty(),
                    sref: mid1.sref,
                    tref: mid1.tref,
                };
                assert(input_plan(ctx1, m1, mid1, last) == PlanOutcome::Good(ig1));
                assert(file_fresh(ctx2, m2, last));
                match last {
                    Input::File { name, .. } => {
                        assert(input_plan(ctx2, m2, mid2, last) == PlanOutcome::Good(
                            PlanState {
                                shader_jobs: ist2.shader_jobs,
                                image_jobs: Seq::<ImageJobM>::empty(),
                                sref: ig1.sref,
                                tref: ig1.tref,
                            },
                        ));
                    },
                    Input::Memory { name, .. } => {
                        assert(mid1.tref.contains(name@) || ctx1.variables@.contains_key(name@));
                        assert(input_plan(ctx2, m2, mid2, last) == PlanOutcome::Good(mid2));
                        assert(ig1 == mid1);
                        assert(mid2 =~= PlanState {
                            shader_jobs: ist2.shader_jobs,
                            image_jobs: Seq::<ImageJobM>::empty(),
                            sref: ig1.sref,
                            tref: ig1.tref,
                        });
                    },
                    Input::Expr { .. } => {
                        assert(ig1 == mid1);
                        assert(mid2 =~= PlanState {
                            shader_jobs: ist2.shader_jobs,
                            image_jobs: Seq::<ImageJobM>::empty(),
                            sref: ig1.sref,
                            tref: ig1.tref,
                        });
                    },
                }
            },
            PlanOutcome::Bad(_) => {
                assert(false);
            },
        }
    }
}

proof fn lemma_inputs_plan_keeps_shaders(
    ctx: Ctx,
    m: Map<Seq<char>, u64>,
    st: PlanState,
    inputs: Seq<Input>,
    g: PlanState,
)
    requires
        inputs_plan(ctx, m, st, inputs) == PlanOutcome::Good(g),
    ensures
        g.sref == st.sref,
        g.shader_jobs == st.shader_jobs,
    decreases inputs.len(),
{
    if inputs.len() > 0 {
        match inputs_plan(ctx, m, st, inputs.drop_last()) {
            PlanOutcome::Good(mid) => {
                lemma_inputs_plan_keeps_shaders(ctx, m, st, inputs.drop_last(), mid);
            },
            PlanOutcome::Bad(_) => {
                assert(false);
            },
        }
    }
}

/// No two planned shader rebuilds share a name.
pub open spec fn unique_job_names(jobs: Seq<ShaderJobM>) -> bool {
    forall|a: int, b: int| 0 <= a < b < jobs.len() ==> jobs[a].name != jobs[b].name
}

/// Replays a whole pass in a cache where each shader is stale exactly when
/// its name is in `sch` and every image is fresh: the run succeeds, the
/// references evolve as in the first run, no reloads are planned, and the
/// rebuilds are exactly one per referenced name in `sch`.
proof fn lemma_replan_stages(
    ctx1: Ctx,
    ctx2: Ctx,
    m1: Map<Seq<char>, u64>,
    m2: Map<Seq<char>, u64>,
    sch: Set<Seq<char>>,
    st1: PlanState,
    st2: PlanState,
    stages: Seq<Stage>,
    g1: PlanState,
)
    requires
        stages_plan(ctx1, m1, st1, stages) == PlanOutcome::Good(g1),
        forall|n: Seq<char>|
            ctx1.variables@.contains_key(n) == ctx2.variables@.contains_key(n),
        forall|i: int| 0 <= i < stages.len() ==> shader_marked(ctx2, m2, sch, #[trigger] stages[i]),
        forall|i: int, j: int|
            0 <= i < stages.len() && 0 <= j < stages[i].inputs@.len() ==> file_fresh(
                ctx2,
                m2,
                #[trigger] stages[i].inputs@[j],
            ),
        st2.sref == st1.sref,
        st2.tref == st1.tref,
        st2.image_jobs == Seq::<ImageJobM>::empty(),
        forall|n: Seq<char>|
            has_shader_job(st2.shader_jobs, n) <==> (sch.contains(n) && st1.sref.contains(n)),
        forall|i: int| 0 <= i < st2.shader_jobs.len() ==> sch.contains(
            #[trigger] st2.shader_jobs[i].name,
        ),
        unique_job_names(st2.shader_jobs),
    ensures
        stages_plan(ctx2, m2, st2, stages) matches PlanOutcome::Good(g2) && {
            &&& g2.sref == g1.sref
            &&& g2.tref == g1.tref
            &&& g2.image_jobs == Seq::<ImageJobM>::empty()
            &&& (forall|n: Seq<char>|
                has_shader_job(g2.shader_jobs, n) <==> (sch.contains(n) && g1.sref.contains(n)))
            &&& (forall|i: int| 0 <= i < g2.shader_jobs.len() ==> sch.contains(
                #[trigger] g2.shader_jobs[i].name,
            ))
            &&& unique_job_names(g2.shader_jobs)
        },
    decreases stages.len(),
{
    if stages.len() == 0 {
        assert(g1 == st1);
    } else {
        let prefix = stages.drop_last();
        let last = stages.last();
        match stages_plan(ctx1, m1, st1, prefix) {
            PlanOutcome::Good(g0) => {
                assert(forall|i: int|
                    0 <= i < prefix.len() ==> shader_marked(ctx2, m2, sch, #[trigger] prefix[i]))
                    by {
                    assert(forall|i: int| 0 <= i < prefix.len() ==> prefix[i] == stages[i]);
                }
                assert(forall|i: int, j: int|
                    0 <= i < prefix.len() && 0 <= j < prefix[i].inputs@.len() ==> file_fresh(
                        ctx2,
                        m2,
                        #[trigger] prefix[i].inputs@[j],
                    )) by {
                    assert(forall|i: int| 0 <= i < prefix.len() ==> prefix[i] == stages[i]);
                }
                lemma_replan_stages(ctx1, ctx2, m1, m2, sch, st1, st2, prefix, g0);
                let h0 = choose|h0: PlanState|
                    stages_plan(ctx2, m2, st2, prefix) == PlanOutcome::Good(h0) && h0.sref
                        == g0.sref && h0.tref == g0.tref && h0.image_jobs
                        == Seq::<ImageJobM>::empty() && (forall|n: Seq<char>|
                        has_shader_job(h0.shader_jobs, n) <==> (sch.contains(n)
                            && g0.sref.contains(n))) && (forall|i: int|
                        0 <= i < h0.shader_jobs.len() ==> sch.contains(
                            #[trigger] h0.shader_jobs[i].name,
                        )) && unique_job_names(h0.shader_jobs);
                // Run 1 peeled on the last stage.
                assert(stage_plan(ctx1, m1, g0, last) == PlanOutcome::Good(g1));
                let n = last.shader@;
                let s1 = match shader_plan(ctx1, m1, g0, last) {
                    PlanOutcome::Good(s) => s,
                    PlanOutcome::Bad(_) => { assert(false); g0 },
                };
                assert(s1.sref == g0.sref.insert(n));
                assert(s1.tref == g0.tref);
                // Run 2, shader step of the last stage.
                assert(shader_marked(ctx2, m2, sch, last));
                let p2 = joined(ctx2.project_path.dir@, n);
                let stale2 = entry_stale(ctx2.shaders@, n, m2[p2]);
                let h1 = match shader_plan(ctx2, m2, h0, last) {
                    PlanOutcome::Good(s) => s,
                    PlanOutcome::Bad(_) => { assert(false); h0 },
                };
                assert(h1.sref == g0.sref.insert(n));
                assert(h1.tref == g0.tref);
                assert(h1.image_jobs == Seq::<ImageJobM>::empty());
                // The run-2 job list keeps its shape.
                assert forall|nn: Seq<char>|
                    has_shader_job(h1.shader_jobs, nn) <==> (sch.contains(nn)
                        && s1.sref.contains(nn)) by {
                    if stale2 && !has_shader_job(h0.shader_jobs, n) {
                        let pushed = h0.shader_jobs.push(
                            ShaderJobM {
                                name: n,
                                path: p2,
                                debug_path: crate::context::debug_path_of(
                                    ctx2.project_path.dir@,
                                    last,
                                ),
                            },
                        );
                        assert(h1.shader_jobs == pushed);
                        if nn == n {
                            assert(pushed[pushed.len() - 1].name == n);
                            assert(has_shader_job(pushed, n));
                        } else {
                            if has_shader_job(pushed, nn) {
                                let a = choose|a: int|
                                    0 <= a < pushed.len() && pushed[a].name == nn;
                                assert(pushed[a] == h0.shader_jobs[a]);
                                assert(has_shader_job(h0.shader_jobs, nn));
                            }
                            if has_shader_job(h0.shader_jobs, nn) {
                                let a = choose|a: int|
                                    0 <= a < h0.shader_jobs.len() && h0.shader_jobs[a].name == nn;
                                assert(pushed[a].name == nn);
                            }
                        }
                    } else {
                        assert(h1.shader_jobs == h0.shader_jobs);
                        if nn == n {
                            if sch.contains(n) {
                                assert(!stale2 ==> !sch.contains(n));
                                assert(has_shader_job(h0.shader_jobs, n));
                            }
                        }
                    }
                }
                assert forall|i: int|
                    0 <= i < h1.shader_jobs.len() implies sch.contains(
                        #[trigger] h1.shader_jobs[i].name,
                    ) by {
                    if i < h0.shader_jobs.len() {
                        assert(h1.shader_jobs[i] == h0.shader_jobs[i]);
                    }
                }
                assert(unique_job_names(h1.shader_jobs)) by {
                    if h1.shader_jobs != h0.shader_jobs {
                        assert(!has_shader_job(h0.shader_jobs, n));
                        assert forall|a: int, b: int|
                            0 <= a < b < h1.shader_jobs.len() implies h1.shader_jobs[a].name
                            != h1.shader_jobs[b].name by {
                            if b < h0.shader_jobs.len() {
                                assert(h1.shader_jobs[a] == h0.shader_jobs[a]);
                                assert(h1.shader_jobs[b] == h0.shader_jobs[b]);
                            } else {
                                assert(h1.shader_jobs[a] == h0.shader_jobs[a]);
                                assert(h1.shader_jobs[b].name == n);
                                assert(!has_shader_job(h0.shader_jobs, n));
                                assert(h0.shader_jobs[a].name != n);
                            }
                        }
                    }
                }
                // Inputs of the last stage.
                let s2 = match inputs_plan(ctx1, m1, s1, last.inputs@) {
                    PlanOutcome::Good(s) => s,
                    PlanOutcome::Bad(_) => { assert(false); s1 },
                };
                assert(forall|j: int|
                    0 <= j < last.inputs@.len() ==> file_fresh(ctx2, m2, #[trigger] last.inputs@[j]))
                    by {
                    assert(last == stages[stages.len() - 1]);
                }
                lemma_replan_inputs(ctx1, ctx2, m1, m2, s1, h1, last.inputs@, s2);
                let h2 = PlanState {
                    shader_jobs: h1.shader_jobs,
                    image_jobs: Seq::<ImageJobM>::empty(),
                    sref: s2.sref,
                    tref: s2.tref,
                };
                // Output step.
                assert(g1 == output_plan(s2, last));
                let h3 = output_plan(h2, last);
                assert(h3.sref == g1.sref);
                assert(h3.tref == g1.tref);
                assert(h3.shader_jobs == h1.shader_jobs);
                assert(h3.image_jobs == Seq::<ImageJobM>::empty());
                assert(stage_plan(ctx2, m2, h0, last) == PlanOutcome::Good(h3));
                assert(stages_plan(ctx2, m2, st2, stages) == PlanOutcome::Good(h3));
                // The job-shape facts carry to the final state.
                lemma_inputs_plan_keeps_shaders(ctx1, m1, s1, last.inputs@, s2);
                assert(s2.sref == s1.sref && g1.sref == s2.sref);
            },
            PlanOutcome::Bad(_) => {
                assert(false);
            },
        }
    }
}

/// A name no job carries is untouched by installing the results.
proof fn lemma_installed_miss(
    m0: Map<Seq<char>, crate::expirable::Expirable<u64>>,
    names: Seq<Seq<char>>,
    built: Seq<(u64, u64)>,
    n: Seq<char>,
)
    requires
        names.len() == built.len(),
        forall|i: int| 0 <= i < names.len() ==> names[i] != n,
    ensures
        entries_installed(m0, names, built).contains_key(n) == m0.contains_key(n),
        m0.contains_key(n) ==> entries_installed(m0, names, built)[n] == m0[n],
    decreases names.len(),
{
    if names.len() > 0 {
        lemma_installed_miss(m0, names.drop_last(), built.drop_last(), n);
    }
}

/// A name some job carries ends up holding one of the built results.
proof fn lemma_installed_hit(
    m0: Map<Seq<char>, crate::expirable::Expirable<u64>>,
    names: Seq<Seq<char>>,
    built: Seq<(u64, u64)>,
    n: Seq<char>,
)
    requires
        names.len() == built.len(),
        exists|i: int| 0 <= i < names.len() && names[i] == n,
    ensures
        entries_installed(m0, names, built).contains_key(n),
        exists|i: int|
            0 <= i < names.len() && names[i] == n && entries_installed(m0, names, built)[n]
                == (crate::expirable::Expirable { data: built[i].0, created_at: built[i].1 }),
    decreases names.len(),
{
    if names.last() == n {
        assert(entries_installed(m0, names, built)[n] == (crate::expirable::Expirable {
            data: built.last().0,
            created_at: built.last().1,
        }));
        assert(names[names.len() - 1] == n);
    } else {
        assert(exists|i: int| 0 <= i < names.drop_last().len() && names.drop_last()[i] == n) by {
            let i = choose|i: int| 0 <= i < names.len() && names[i] == n;
            assert(names.drop_last()[i] == n);
        }
        lemma_installed_hit(m0, names.drop_last(), built.drop_last(), n);
        let i = choose|i: int|
            0 <= i < names.drop_last().len() && names.drop_last()[i] == n && entries_installed(
                m0,
                names.drop_last(),
                built.drop_last(),
            )[n] == (crate::expirable::Expirable {
                data: built.drop_last()[i].0,
                created_at: built.drop_last()[i].1,
            });
        assert(names[i] == n && built[i] == built.drop_last()[i]);
        assert(entries_installed(m0, names, built)[n] == entries_installed(
            m0,
            names.drop_last(),
            built.drop_last(),
        )[n]);
    }
}

/// The facts one successful planning pass leaves behind: references only
/// grow and stay inside the names the stages use, every planned job's path
/// is its name resolved in the project directory and its name is
/// referenced, and every shader or file the stages use is either fresh in
/// the cache or has a planned rebuild.
proof fn lemma_inputs_plan_facts(
    ctx: Ctx,
    m: Map<Seq<char>, u64>,
    st: PlanState,
    inputs: Seq<Input>,
    g: PlanState,
)
    requires
        inputs_plan(ctx, m, st, inputs) == PlanOutcome::Good(g),
        forall|i: int|
            0 <= i < st.image_jobs.len() ==> (#[trigger] st.image_jobs[i]).path == joined(
                ctx.project_path.dir@,
                st.image_jobs[i].name,
            ),
        forall|n: Seq<char>| has_image_job(st.image_jobs, n) ==> st.tref.contains(n),
    ensures
        forall|n: Seq<char>| st.tref.contains(n) ==> g.tref.contains(n),
        forall|n: Seq<char>| has_image_job(st.image_jobs, n) ==> has_image_job(g.image_jobs, n),
        forall|i: int|
            0 <= i < g.image_jobs.len() ==> (#[trigger] g.image_jobs[i]).path == joined(
                ctx.project_path.dir@,
                g.image_jobs[i].name,
            ),
        forall|n: Seq<char>| has_image_job(g.image_jobs, n) ==> g.tref.contains(n),
        forall|j: int|
            0 <= j < inputs.len() ==> match #[trigger] inputs[j] {
                Input::File { name, .. } => g.tref.contains(name@) && (has_image_job(
                    g.image_jobs,
                    name@,
                ) || (ctx.textures@.contains_key(name@) && m.contains_key(
                    joined(ctx.project_path.dir@, name@),
                ) && !(ctx.textures@[name@].created_at < m[joined(ctx.project_path.dir@, name@)]))),
                _ => true,
            },
        forall|n: Seq<char>|
            g.tref.contains(n) ==> st.tref.contains(n) || (exists|j: int|
                0 <= j < inputs.len() && input_file_named(#[trigger] inputs[j], n)),
    decreases inputs.len(),
{
    if inputs.len() > 0 {
        let prefix = inputs.drop_last();
        let last = inputs.last();
        match inputs_plan(ctx, m, st, prefix) {
            PlanOutcome::Good(mid) => {
                lemma_inputs_plan_facts(ctx, m, st, prefix, mid);
                assert(input_plan(ctx, m, mid, last) == PlanOutcome::Good(g));
                lemma_input_plan_jobs_grow(ctx, m, mid, last, g);
                assert forall|i: int|
                    0 <= i < g.image_jobs.len() implies (#[trigger] g.image_jobs[i]).path
                    == joined(ctx.project_path.dir@, g.image_jobs[i].name) by {
                    if i < mid.image_jobs.len() {
                        assert(g.image_jobs[i] == mid.image_jobs[i]);
                    }
                }
                assert forall|j: int| 0 <= j < inputs.len() implies match #[trigger] inputs[j] {
                    Input::File { name, .. } => g.tref.contains(name@) && (has_image_job(
                        g.image_jobs,
                        name@,
                    ) || (ctx.textures@.contains_key(name@) && m.contains_key(
                        joined(ctx.project_path.dir@, name@),
                    ) && !(ctx.textures@[name@].created_at < m[joined(
                        ctx.project_path.dir@,
                        name@,
                    )]))),
                    _ => true,
                } by {
                    if j < inputs.len() - 1 {
                        assert(inputs[j] == prefix[j]);
                        match prefix[j] {
                            Input::File { name, .. } => {
                                if has_image_job(mid.image_jobs, name@) {
                                    assert(has_image_job(g.image_jobs, name@)) by {
                                        lemma_input_plan_jobs_grow(ctx, m, mid, last, g);
                                    }
                                }
                                assert(g.tref.contains(name@)) by {
                                    lemma_input_plan_jobs_grow(ctx, m, mid, last, g);
                                }
                            },
                            _ => {},
                        }
                    } else {
                        assert(inputs[j] == last);
                        match last {
                            Input::File { name, .. } => {
                                let nm = name@;
                                let p = joined(ctx.project_path.dir@, nm);
                                if ctx.textures@.contains_key(nm) {
                                    if ctx.textures@[nm].created_at < m[p] && !has_image_job(
                                        mid.image_jobs,
                                        nm,
                                    ) {
                                        assert(g.image_jobs.last().name == nm);
                                        assert(has_image_job(g.image_jobs, nm));
                                    } else if ctx.textures@[nm].created_at < m[p] {
                                        assert(has_image_job(g.image_jobs, nm)) by {
                                            let a = choose|a: int|
                                                0 <= a < mid.image_jobs.len()
                                                    && mid.image_jobs[a].name == nm;
                                            assert(g.image_jobs[a].name == nm);
                                        }
                                    }
                                } else {
                                    if !has_image_job(mid.image_jobs, nm) {
                                        assert(g.image_jobs.last().name == nm);
                                        assert(has_image_job(g.image_jobs, nm));
                                    }
                                }
                            },
                            _ => {},
                        }
                    }
                }
            },
            PlanOutcome::Bad(_) => {
                assert(false);
            },
        }
    }
}

/// One input step never drops a planned job or a referenced name.
proof fn lemma_input_plan_jobs_grow(
    ctx: Ctx,
    m: Map<Seq<char>, u64>,
    st: PlanState,
    inp: Input,
    g: PlanState,
)
    requires
        input_plan(ctx, m, st, inp) == PlanOutcome::Good(g),
    ensures
        forall|n: Seq<char>| has_image_job(st.image_jobs, n) ==> has_image_job(g.image_jobs, n),
        forall|n: Seq<char>| st.tref.contains(n) ==> g.tref.contains(n),
{
    assert forall|n: Seq<char>|
        has_image_job(st.image_jobs, n) implies has_image_job(g.image_jobs, n) by {
        let a = choose|a: int| 0 <= a < st.image_jobs.len() && st.image_jobs[a].name == n;
        assert(g.image_jobs[a].name == n);
    }
}

proof fn lemma_shader_plan_facts(
    ctx: Ctx,
    m: Map<Seq<char>, u64>,
    st: PlanState,
    stage: Stage,
    g: PlanState,
)
    requires
        shader_plan(ctx, m, st, stage) == PlanOutcome::Good(g),
    ensures
        g.tref == st.tref,
        g.image_jobs == st.image_jobs,
        g.sref == st.sref.insert(stage.shader@),
        m.contains_key(joined(ctx.project_path.dir@, stage.shader@)),
        forall|n: Seq<char>| has_shader_job(st.shader_jobs, n) ==> has_shader_job(
            g.shader_jobs,
            n,
        ),
        entry_stale(
            ctx.shaders@,
            stage.shader@,
            m[joined(ctx.project_path.dir@, stage.shader@)],
        ) ==> has_shader_job(g.shader_jobs, stage.shader@),
        forall|i: int|
            0 <= i < g.shader_jobs.len() ==> st.shader_jobs.contains(#[trigger] g.shader_jobs[i])
                || g.shader_jobs[i] == (ShaderJobM {
                name: stage.shader@,
                path: joined(ctx.project_path.dir@, stage.shader@),
                debug_path: crate::context::debug_path_of(ctx.project_path.dir@, stage),
            }),
{
    let n = stage.shader@;
    let p = joined(ctx.project_path.dir@, n);
    if entry_stale(ctx.shaders@, n, m[p]) && !has_shader_job(st.shader_jobs, n) {
        assert(g.shader_jobs.last().name == n);
        assert(has_shader_job(g.shader_jobs, n));
        assert forall|nn: Seq<char>|
            has_shader_job(st.shader_jobs, nn) implies has_shader_job(g.shader_jobs, nn) by {
            let a = choose|a: int| 0 <= a < st.shader_jobs.len() && st.shader_jobs[a].name == nn;
            assert(g.shader_jobs[a].name == nn);
        }
        assert forall|i: int|
            0 <= i < g.shader_jobs.len() implies st.shader_jobs.contains(
                #[trigger] g.shader_jobs[i],
            ) || g.shader_jobs[i] == (ShaderJobM {
                name: stage.shader@,
                path: p,
                debug_path: crate::context::debug_path_of(ctx.project_path.dir@, stage),
            }) by {
            if i < st.shader_jobs.len() {
                assert(g.shader_jobs[i] == st.shader_jobs[i]);
                assert(st.shader_jobs.contains(st.shader_jobs[i]));
            }
        }
    } else {
        assert(g.shader_jobs == st.shader_jobs);
        assert forall|i: int|
            0 <= i < g.shader_jobs.len() implies st.shader_jobs.contains(
                #[trigger] g.shader_jobs[i],
            ) || g.shader_jobs[i] == (ShaderJobM {
                name: stage.shader@,
                path: p,
                debug_path: crate::context::debug_path_of(ctx.project_path.dir@, stage),
            }) by {
            assert(st.shader_jobs.contains(st.shader_jobs[i]));
        }
    }
}

proof fn lemma_stages_plan_facts(
    ctx: Ctx,
    m: Map<Seq<char>, u64>,
    st: PlanState,
    stages: Seq<Stage>,
    g: PlanState,
)
    requires
        stages_plan(ctx, m, st, stages) == PlanOutcome::Good(g),
        forall|i: int|
            0 <= i < st.image_jobs.len() ==> (#[trigger] st.image_jobs[i]).path == joined(
                ctx.project_path.dir@,
                st.image_jobs[i].name,
            ),
        forall|n: Seq<char>| has_image_job(st.image_jobs, n) ==> st.tref.contains(n),
        forall|i: int|
            0 <= i < st.shader_jobs.len() ==> (#[trigger] st.shader_jobs[i]).path == joined(
                ctx.project_path.dir@,
                st.shader_jobs[i].name,
            ),
        forall|n: Seq<char>| has_shader_job(st.shader_jobs, n) ==> st.sref.contains(n),
    ensures
        forall|n: Seq<char>| st.sref.contains(n) ==> g.sref.contains(n),
        forall|n: Seq<char>| st.tref.contains(n) ==> g.tref.contains(n),
        forall|n: Seq<char>| has_shader_job(st.shader_jobs, n) ==> has_shader_job(
            g.shader_jobs,
            n,
        ),
        forall|n: Seq<char>| has_image_job(st.image_jobs, n) ==> has_image_job(g.image_jobs, n),
        forall|i: int|
            0 <= i < g.image_jobs.len() ==> (#[trigger] g.image_jobs[i]).path == joined(
                ctx.project_path.dir@,
                g.image_jobs[i].name,
            ),
        forall|n: Seq<char>| has_image_job(g.image_jobs, n) ==> g.tref.contains(n),
        forall|i: int|
            0 <= i < g.shader_jobs.len() ==> (#[trigger] g.shader_jobs[i]).path == joined(
                ctx.project_path.dir@,
                g.shader_jobs[i].name,
            ),
        forall|n: Seq<char>| has_shader_job(g.shader_jobs, n) ==> g.sref.contains(n),
        forall|i: int|
            0 <= i < stages.len() ==> {
                let n = (#[trigger] stages[i]).shader@;
                let p = joined(ctx.project_path.dir@, n);
                m.contains_key(p) && g.sref.contains(n) && (entry_stale(ctx.shaders@, n, m[p])
                    ==> has_shader_job(g.shader_jobs, n))
            },
        forall|i: int, j: int|
            0 <= i < stages.len() && 0 <= j < stages[i].inputs@.len() ==> match #[trigger] stages[i].inputs@[j] {
                Input::File { name, .. } => g.tref.contains(name@) && (has_image_job(
                    g.image_jobs,
                    name@,
                ) || (ctx.textures@.contains_key(name@) && m.contains_key(
                    joined(ctx.project_path.dir@, name@),
                ) && !(ctx.textures@[name@].created_at < m[joined(ctx.project_path.dir@, name@)]))),
                _ => true,
            },
        forall|n: Seq<char>|
            g.sref.contains(n) ==> st.sref.contains(n) || shader_names(stages).contains(n),
        forall|n: Seq<char>|
            g.tref.contains(n) ==> st.tref.contains(n) || file_names(stages).contains(n)
                || output_names(stages).contains(n),
    decreases stages.len(),
{
    if stages.len() > 0 {
        let prefix = stages.drop_last();
        let last = stages.last();
        match stages_plan(ctx, m, st, prefix) {
            PlanOutcome::Good(g0) => {
                lemma_stages_plan_facts(ctx, m, st, prefix, g0);
                let s1 = match shader_plan(ctx, m, g0, last) {
                    PlanOutcome::Good(s) => s,
                    PlanOutcome::Bad(_) => { assert(false); g0 },
                };
                lemma_shader_plan_facts(ctx, m, g0, last, s1);
                let s2 = match inputs_plan(ctx, m, s1, last.inputs@) {
                    PlanOutcome::Good(s) => s,
                    PlanOutcome::Bad(_) => { assert(false); s1 },
                };
                lemma_inputs_plan_facts(ctx, m, s1, last.inputs@, s2);
                lemma_inputs_plan_keeps_shaders(ctx, m, s1, last.inputs@, s2);
                assert(g == output_plan(s2, last));
                // Job path formulas and job-name containment carry through.
                assert forall|i: int|
                    0 <= i < s1.shader_jobs.len() implies (#[trigger] s1.shader_jobs[i]).path
                    == joined(ctx.project_path.dir@, s1.shader_jobs[i].name) by {
                    if s1.shader_jobs.contains(s1.shader_jobs[i]) {
                        if exists|a: int|
                            0 <= a < g0.shader_jobs.len() && g0.shader_jobs[a]
                                == s1.shader_jobs[i] {
                            let a = choose|a: int|
                                0 <= a < g0.shader_jobs.len() && g0.shader_jobs[a]
                                    == s1.shader_jobs[i];
                            assert(g0.shader_jobs[a].path == joined(
                                ctx.project_path.dir@,
                                g0.shader_jobs[a].name,
                            ));
                        }
                    }
                }
                assert forall|n: Seq<char>|
                    has_shader_job(s1.shader_jobs, n) implies s1.sref.contains(n) by {
                    let a = choose|a: int|
                        0 <= a < s1.shader_jobs.len() && s1.shader_jobs[a].name == n;
                    if exists|b: int|
                        0 <= b < g0.shader_jobs.len() && g0.shader_jobs[b] == s1.shader_jobs[a] {
                        let b = choose|b: int|
                            0 <= b < g0.shader_jobs.len() && g0.shader_jobs[b]
                                == s1.shader_jobs[a];
                        assert(has_shader_job(g0.shader_jobs, n));
                        assert(g0.sref.contains(n));
                    } else {
                        assert(s1.shader_jobs[a].name == last.shader@);
                    }
                }
                // Stage-level facts for the last stage and lifting for the prefix.
                assert forall|i: int| 0 <= i < stages.len() implies {
                    let n = (#[trigger] stages[i]).shader@;
                    let p = joined(ctx.project_path.dir@, n);
                    m.contains_key(p) && g.sref.contains(n) && (entry_stale(ctx.shaders@, n, m[p])
                        ==> has_shader_job(g.shader_jobs, n))
                } by {
                    if i < stages.len() - 1 {
                        assert(stages[i] == prefix[i]);
                        let n = stages[i].shader@;
                        if has_shader_job(g0.shader_jobs, n) {
                            let a = choose|a: int|
                                0 <= a < g0.shader_jobs.len() && g0.shader_jobs[a].name == n;
                            assert(s1.shader_jobs[a].name == n);
                            assert(has_shader_job(g.shader_jobs, n));
                        }
                    } else {
                        assert(stages[i] == last);
                        let n = last.shader@;
                        assert(s1.sref.contains(n));
                    }
                }
                assert forall|i: int, j: int|
                    0 <= i < stages.len() && 0 <= j < stages[i].inputs@.len() implies match
                    #[trigger] stages[i].inputs@[j] {
                    Input::File { name, .. } => g.tref.contains(name@) && (has_image_job(
                        g.image_jobs,
                        name@,
                    ) || (ctx.textures@.contains_key(name@) && m.contains_key(
                        joined(ctx.project_path.dir@, name@),
                    ) && !(ctx.textures@[name@].created_at < m[joined(
                        ctx.project_path.dir@,
                        name@,
                    )]))),
                    _ => true,
                } by {
                    if i < stages.len() - 1 {
                        assert(stages[i] == prefix[i]);
                        match prefix[i].inputs@[j] {
                            Input::File { name, .. } => {
                                if has_image_job(g0.image_jobs, name@) {
                                    assert(s1.image_jobs == g0.image_jobs);
                                    assert(has_image_job(s2.image_jobs, name@));
                                    assert(g.image_jobs == s2.image_jobs);
                                }
                            },
                            _ => {},
                        }
                    } else {
                        assert(stages[i] == last);
                    }
                }
                // Reference bounds.
                assert forall|n: Seq<char>|
                    g.sref.contains(n) implies st.sref.contains(n) || shader_names(
                        stages,
                    ).contains(n) by {
                    if !st.sref.contains(n) {
                        if g0.sref.contains(n) {
                            assert(shader_names(prefix).contains(n));
                            let a = choose|a: int| 0 <= a < prefix.len() && prefix[a].shader@ == n;
                            assert(stages[a].shader@ == n);
                        } else {
                            assert(n == last.shader@);
                            assert(stages[stages.len() - 1].shader@ == n);
                        }
                    }
                }
                assert forall|n: Seq<char>|
                    g.tref.contains(n) implies st.tref.contains(n) || file_names(
                        stages,
                    ).contains(n) || output_names(stages).contains(n) by {
                    if !st.tref.contains(n) {
                        if s2.tref.contains(n) {
                            if s1.tref.contains(n) {
                                // from the prefix
                                if file_names(prefix).contains(n) {
                                    let (a, b) = choose|a: int, b: int|
                                        0 <= a < prefix.len() && 0 <= b
                                            < prefix[a].inputs@.len() && input_file_named(
                                            prefix[a].inputs@[b],
                                            n,
                                        );
                                    assert(stages[a] == prefix[a]);
                                    assert(file_names(stages).contains(n));
                                } else if output_names(prefix).contains(n) {
                                    let a = choose|a: int|
                                        0 <= a < prefix.len() && prefix[a].output.name@ == n && (
                                        prefix[a].output.dst is Memory
                                            || prefix[a].output.preview is Simple);
                                    assert(stages[a] == prefix[a]);
                                    assert(output_names(stages).contains(n));
                                }
                            } else {
                                // from the last stage's inputs
                                let b = choose|b: int|
                                    0 <= b < last.inputs@.len() && input_file_named(
                                        last.inputs@[b],
                                        n,
                                    );
                                assert(stages[stages.len() - 1] == last);
                                assert(file_names(stages).contains(n));
                            }
                        } else {
                            // from the last stage's output
                            assert(n == last.output.name@);
                            assert(last.output.dst is Memory || last.output.preview is Simple);
                            assert(stages[stages.len() - 1] == last);
                            assert(output_names(stages).contains(n));
                        }
                    }
                }
            },
            PlanOutcome::Bad(_) => {
                assert(false);
            },
        }
    }
}

/// Reference validation: a `Memory` input passes the refresh pass exactly
/// when its name is already referenced at that point of the pass — a
/// texture recorded by an earlier stage's `File` input or output — or is a
/// declared variable; anything else, a forward reference included, stops
/// planning with an unknown-resource error naming it.
pub proof fn lemma_memory_input_validated(
    ctx: Ctx,
    mtimes: Map<Seq<char>, u64>,
    st: PlanState,
    name: String,
    uniform: String,
)
    ensures
        st.tref.contains(name@) || ctx.variables@.contains_key(name@) ==> input_plan(
            ctx,
            mtimes,
            st,
            Input::Memory { name, uniform },
        ) == PlanOutcome::Good(st),
        !st.tref.contains(name@) && !ctx.variables@.contains_key(name@) ==> input_plan(
            ctx,
            mtimes,
            st,
            Input::Memory { name, uniform },
        ) == PlanOutcome::Bad(crate::errors::ErrView::UnknownResource(name@)),
{
}

proof fn lemma_joined_injective(d: Seq<char>, a: Seq<char>, b: Seq<char>)
    requires
        joined(d, a) == joined(d, b),
    ensures
        a == b,
{
    assert(joined(d, a).len() == d.len() + 1 + a.len());
    assert(joined(d, b).len() == d.len() + 1 + b.len());
    assert forall|i: int| 0 <= i < a.len() implies a[i] == b[i] by {
        assert(joined(d, a)[d.len() + 1 + i] == a[i]);
        assert(joined(d, b)[d.len() + 1 + i] == b[i]);
    }
    assert(a =~= b);
}

/// After a plan is applied with fresh results, every shader and file name
/// the stages use is cached with a timestamp at or after its file's known
/// modification time.
proof fn lemma_applied_entries(
    ctx1: Ctx,
    ctx2: Ctx,
    pipe: Pipeline,
    mtimes: Map<Seq<char>, u64>,
    fin: PlanState,
    sbuilt: Seq<(u64, u64)>,
    ibuilt: Seq<(u64, u64)>,
)
    requires
        refresh_plan_spec(ctx1, pipe, mtimes) == PlanOutcome::Good(fin),
        ctx2.project_path == ctx1.project_path,
        sbuilt.len() == fin.shader_jobs.len(),
        ibuilt.len() == fin.image_jobs.len(),
        ctx2.shaders@ == entries_installed(
            ctx1.shaders@,
            fin.shader_jobs.map_values(|j: ShaderJobM| j.name),
            sbuilt,
        ).restrict(fin.sref),
        ctx2.textures@ == entries_installed(
            ctx1.textures@,
            fin.image_jobs.map_values(|j: ImageJobM| j.name),
            ibuilt,
        ).restrict(fin.tref),
        forall|i: int|
            0 <= i < fin.shader_jobs.len() ==> mtimes.contains_key(
                (#[trigger] fin.shader_jobs[i]).path,
            ) && sbuilt[i].1 >= mtimes[fin.shader_jobs[i].path],
        forall|i: int|
            0 <= i < fin.image_jobs.len() ==> mtimes.contains_key(
                (#[trigger] fin.image_jobs[i]).path,
            ) && ibuilt[i].1 >= mtimes[fin.image_jobs[i].path],
    ensures
        forall|i: int|
            0 <= i < pipe.pipeline@.len() ==> {
                let nn = (#[trigger] pipe.pipeline@[i]).shader@;
                let p = joined(ctx1.project_path.dir@, nn);
                mtimes.contains_key(p) && ctx2.shaders@.contains_key(nn)
                    && ctx2.shaders@[nn].created_at >= mtimes[p]
            },
        forall|i: int, j: int|
            0 <= i < pipe.pipeline@.len() && 0 <= j < pipe.pipeline@[i].inputs@.len()
                ==> match #[trigger] pipe.pipeline@[i].inputs@[j] {
                Input::File { name, .. } => {
                    let p = joined(ctx1.project_path.dir@, name@);
                    mtimes.contains_key(p) && ctx2.textures@.contains_key(name@)
                        && ctx2.textures@[name@].created_at >= mtimes[p]
                },
                _ => true,
            },
{
    let stages = pipe.pipeline@;
    lemma_stages_plan_facts(ctx1, mtimes, empty_plan(), stages, fin);
    let snames = fin.shader_jobs.map_values(|j: ShaderJobM| j.name);
    let inames = fin.image_jobs.map_values(|j: ImageJobM| j.name);
    assert forall|i: int| 0 <= i < stages.len() implies {
        let nn = (#[trigger] stages[i]).shader@;
        let p = joined(ctx1.project_path.dir@, nn);
        mtimes.contains_key(p) && ctx2.shaders@.contains_key(nn)
            && ctx2.shaders@[nn].created_at >= mtimes[p]
    } by {
        let nn = stages[i].shader@;
        let p = joined(ctx1.project_path.dir@, nn);
        assert(mtimes.contains_key(p) && fin.sref.contains(nn));
        if has_shader_job(fin.shader_jobs, nn) {
            assert(exists|a: int| 0 <= a < snames.len() && snames[a] == nn) by {
                let a = choose|a: int|
                    0 <= a < fin.shader_jobs.len() && fin.shader_jobs[a].name == nn;
                assert(snames[a] == nn);
            }
            lemma_installed_hit(ctx1.shaders@, snames, sbuilt, nn);
            let a = choose|a: int|
                0 <= a < snames.len() && snames[a] == nn && entries_installed(
                    ctx1.shaders@,
                    snames,
                    sbuilt,
                )[nn] == (crate::expirable::Expirable {
                    data: sbuilt[a].0,
                    created_at: sbuilt[a].1,
                });
            assert(fin.shader_jobs[a].name == nn);
            assert(fin.shader_jobs[a].path == p);
            assert(sbuilt[a].1 >= mtimes[p]);
        } else {
            assert(!entry_stale(ctx1.shaders@, nn, mtimes[p]));
            assert(forall|b: int| 0 <= b < snames.len() ==> snames[b] != nn) by {
                assert forall|b: int| 0 <= b < snames.len() implies snames[b] != nn by {
                    assert(snames[b] == fin.shader_jobs[b].name);
                }
            }
            lemma_installed_miss(ctx1.shaders@, snames, sbuilt, nn);
        }
    }
    assert forall|i: int, j: int|
        0 <= i < stages.len() && 0 <= j < stages[i].inputs@.len() implies match
        #[trigger] stages[i].inputs@[j] {
        Input::File { name, .. } => {
            let p = joined(ctx1.project_path.dir@, name@);
            mtimes.contains_key(p) && ctx2.textures@.contains_key(name@)
                && ctx2.textures@[name@].created_at >= mtimes[p]
        },
        _ => true,
    } by {
        match stages[i].inputs@[j] {
            Input::File { name, .. } => {
                let nm = name@;
                let p = joined(ctx1.project_path.dir@, nm);
                assert(fin.tref.contains(nm));
                if has_image_job(fin.image_jobs, nm) {
                    assert(exists|a: int| 0 <= a < inames.len() && inames[a] == nm) by {
                        let a = choose|a: int|
                            0 <= a < fin.image_jobs.len() && fin.image_jobs[a].name == nm;
                        assert(inames[a] == nm);
                    }
                    lemma_installed_hit(ctx1.textures@, inames, ibuilt, nm);
                    let a = choose|a: int|
                        0 <= a < inames.len() && inames[a] == nm && entries_installed(
                            ctx1.textures@,
                            inames,
                            ibuilt,
                        )[nm] == (crate::expirable::Expirable {
                            data: ibuilt[a].0,
                            created_at: ibuilt[a].1,
                        });
                    assert(fin.image_jobs[a].name == nm);
                    assert(fin.image_jobs[a].path == p);
                    assert(ibuilt[a].1 >= mtimes[p]);
                } else {
                    assert(ctx1.textures@.contains_key(nm) && mtimes.contains_key(p) && !(
                    ctx1.textures@[nm].created_at < mtimes[p]));
                    assert(forall|b: int| 0 <= b < inames.len() ==> inames[b] != nm) by {
                        assert forall|b: int| 0 <= b < inames.len() implies inames[b] != nm by {
                            assert(inames[b] == fin.image_jobs[b].name);
                        }
                    }
                    lemma_installed_miss(ctx1.textures@, inames, ibuilt, nm);
                }
            },
            _ => {},
        }
    }
}

/// Idempotent refresh: after one refresh pass is planned against the file
/// modification times and applied with results no older than those times,
/// planning again against the same times finds nothing to rebuild or
/// reload — so nothing changed and every entry keeps its timestamp — and
/// references the same names.
pub proof fn lemma_refresh_idempotent(
    ctx1: Ctx,
    ctx2: Ctx,
    pipe: Pipeline,
    mtimes: Map<Seq<char>, u64>,
    fin: PlanState,
    sbuilt: Seq<(u64, u64)>,
    ibuilt: Seq<(u64, u64)>,
)
    requires
        refresh_plan_spec(ctx1, pipe, mtimes) == PlanOutcome::Good(fin),
        ctx2.project_path == ctx1.project_path,
        ctx2.variables == ctx1.variables,
        sbuilt.len() == fin.shader_jobs.len(),
        ibuilt.len() == fin.image_jobs.len(),
        ctx2.shaders@ == entries_installed(
            ctx1.shaders@,
            fin.shader_jobs.map_values(|j: ShaderJobM| j.name),
            sbuilt,
        ).restrict(fin.sref),
        ctx2.textures@ == entries_installed(
            ctx1.textures@,
            fin.image_jobs.map_values(|j: ImageJobM| j.name),
            ibuilt,
        ).restrict(fin.tref),
        forall|i: int|
            0 <= i < fin.shader_jobs.len() ==> mtimes.contains_key(
                (#[trigger] fin.shader_jobs[i]).path,
            ) && sbuilt[i].1 >= mtimes[fin.shader_jobs[i].path],
        forall|i: int|
            0 <= i < fin.image_jobs.len() ==> mtimes.contains_key(
                (#[trigger] fin.image_jobs[i]).path,
            ) && ibuilt[i].1 >= mtimes[fin.image_jobs[i].path],
    ensures
        refresh_plan_spec(ctx2, pipe, mtimes) matches PlanOutcome::Good(g2)
            && g2.shader_jobs == Seq::<ShaderJobM>::empty() && g2.image_jobs
            == Seq::<ImageJobM>::empty() && g2.sref == fin.sref && g2.tref == fin.tref,
{
    let stages = pipe.pipeline@;
    lemma_applied_entries(ctx1, ctx2, pipe, mtimes, fin, sbuilt, ibuilt);
    assert forall|i: int|
        0 <= i < stages.len() implies shader_marked(
            ctx2,
            mtimes,
            Set::<Seq<char>>::empty(),
            #[trigger] stages[i],
        ) by {
        let nn = stages[i].shader@;
        assert(ctx2.shaders@.contains_key(nn));
    }
    assert forall|i: int, j: int|
        0 <= i < stages.len() && 0 <= j < stages[i].inputs@.len() implies file_fresh(
            ctx2,
            mtimes,
            #[trigger] stages[i].inputs@[j],
        ) by {
        match stages[i].inputs@[j] {
            Input::File { name, .. } => {
                assert(ctx2.textures@.contains_key(name@));
            },
            _ => {},
        }
    }
    lemma_replan_stages(
        ctx1,
        ctx2,
        mtimes,
        mtimes,
        Set::<Seq<char>>::empty(),
        empty_plan(),
        empty_plan(),
        stages,
        fin,
    );
    let g2 = choose|g2: PlanState|
        stages_plan(ctx2, mtimes, empty_plan(), stages) == PlanOutcome::Good(g2) && g2.sref
            == fin.sref && g2.tref == fin.tref && g2.image_jobs == Seq::<ImageJobM>::empty() && (
        forall|i: int|
            0 <= i < g2.shader_jobs.len() ==> Set::<Seq<char>>::empty().contains(
                (#[trigger] g2.shader_jobs[i]).name,
            ));
    assert(g2.shader_jobs.len() == 0) by {
        if g2.shader_jobs.len() > 0 {
            assert(Set::<Seq<char>>::empty().contains(g2.shader_jobs[0].name));
        }
    }
    assert(g2.shader_jobs =~= Seq::<ShaderJobM>::empty());
}

/// Staleness propagation: advancing the modification time of the shader
/// file of name `n0` — and nothing else — makes the next refresh pass plan
/// exactly one rebuild, of that shader, and no image reloads; every other
/// cached entry keeps its timestamp, since a pass only rewrites the entries
/// it plans jobs for.
pub proof fn lemma_staleness_propagation(
    ctx1: Ctx,
    ctx2: Ctx,
    pipe: Pipeline,
    mtimes: Map<Seq<char>, u64>,
    fin: PlanState,
    sbuilt: Seq<(u64, u64)>,
    ibuilt: Seq<(u64, u64)>,
    n0: Seq<char>,
    t2: u64,
)
    requires
        refresh_plan_spec(ctx1, pipe, mtimes) == PlanOutcome::Good(fin),
        ctx2.project_path == ctx1.project_path,
        ctx2.variables == ctx1.variables,
        sbuilt.len() == fin.shader_jobs.len(),
        ibuilt.len() == fin.image_jobs.len(),
        ctx2.shaders@ == entries_installed(
            ctx1.shaders@,
            fin.shader_jobs.map_values(|j: ShaderJobM| j.name),
            sbuilt,
        ).restrict(fin.sref),
        ctx2.textures@ == entries_installed(
            ctx1.textures@,
            fin.image_jobs.map_values(|j: ImageJobM| j.name),
            ibuilt,
        ).restrict(fin.tref),
        forall|i: int|
            0 <= i < fin.shader_jobs.len() ==> mtimes.contains_key(
                (#[trigger] fin.shader_jobs[i]).path,
            ) && sbuilt[i].1 >= mtimes[fin.shader_jobs[i].path],
        forall|i: int|
            0 <= i < fin.image_jobs.len() ==> mtimes.contains_key(
                (#[trigger] fin.image_jobs[i]).path,
            ) && ibuilt[i].1 >= mtimes[fin.image_jobs[i].path],
        // only the shader file named n0 has a newer modification time
        ctx2.shaders@.contains_key(n0) ==> ctx2.shaders@[n0].created_at < t2,
        !file_names(pipe.pipeline@).contains(n0),
    ensures
        refresh_plan_spec(ctx2, pipe, mtimes.insert(joined(ctx2.project_path.dir@, n0), t2))
            matches PlanOutcome::Good(g2) && g2.image_jobs == Seq::<ImageJobM>::empty() && g2.sref
            == fin.sref && g2.tref == fin.tref && (forall|i: int|
            0 <= i < g2.shader_jobs.len() ==> (#[trigger] g2.shader_jobs[i]).name == n0)
            && g2.shader_jobs.len() <= 1 && (shader_names(pipe.pipeline@).contains(n0)
            ==> g2.shader_jobs.len() == 1),
{
    let stages = pipe.pipeline@;
    let d = ctx2.project_path.dir@;
    let p0 = joined(d, n0);
    let m2 = mtimes.insert(p0, t2);
    let sch = Set::<Seq<char>>::empty().insert(n0);
    lemma_applied_entries(ctx1, ctx2, pipe, mtimes, fin, sbuilt, ibuilt);
    lemma_stages_plan_facts(ctx1, mtimes, empty_plan(), stages, fin);
    assert forall|i: int|
        0 <= i < stages.len() implies shader_marked(ctx2, m2, sch, #[trigger] stages[i]) by {
        let nn = stages[i].shader@;
        let p = joined(d, nn);
        if nn == n0 {
            assert(m2[p0] == t2);
            assert(entry_stale(ctx2.shaders@, n0, t2));
        } else {
            if p == p0 {
                lemma_joined_injective(d, nn, n0);
            }
            assert(p != p0);
            assert(m2.contains_key(p) && m2[p] == mtimes[p]);
            assert(ctx2.shaders@.contains_key(nn) && ctx2.shaders@[nn].created_at >= mtimes[p]);
            assert(!entry_stale(ctx2.shaders@, nn, m2[p]));
            assert(!sch.contains(nn));
        }
    }
    assert forall|i: int, j: int|
        0 <= i < stages.len() && 0 <= j < stages[i].inputs@.len() implies file_fresh(
            ctx2,
            m2,
            #[trigger] stages[i].inputs@[j],
        ) by {
        match stages[i].inputs@[j] {
            Input::File { name, .. } => {
                let nm = name@;
                let p = joined(d, nm);
                assert(file_names(stages).contains(nm)) by {
                    assert(input_file_named(stages[i].inputs@[j], nm));
                }
                assert(nm != n0);
                if p == p0 {
                    lemma_joined_injective(d, nm, n0);
                }
                assert(p != p0);
                assert(m2.contains_key(p) && m2[p] == mtimes[p]);
                assert(ctx2.textures@.contains_key(nm) && ctx2.textures@[nm].created_at
                    >= mtimes[p]);
            },
            _ => {},
        }
    }
    lemma_replan_stages(ctx1, ctx2, mtimes, m2, sch, empty_plan(), empty_plan(), stages, fin);
    let g2 = choose|g2: PlanState|
        stages_plan(ctx2, m2, empty_plan(), stages) == PlanOutcome::Good(g2) && g2.sref
            == fin.sref && g2.tref == fin.tref && g2.image_jobs == Seq::<ImageJobM>::empty() && (
        forall|n: Seq<char>|
            has_shader_job(g2.shader_jobs, n) <==> (sch.contains(n) && fin.sref.contains(n))) && (
        forall|i: int|
            0 <= i < g2.shader_jobs.len() ==> sch.contains(#[trigger] g2.shader_jobs[i].name))
            && unique_job_names(g2.shader_jobs);
    assert(forall|i: int| 0 <= i < g2.shader_jobs.len() ==> (#[trigger] g2.shader_jobs[i]).name
        == n0);
    assert(g2.shader_jobs.len() <= 1) by {
        if g2.shader_jobs.len() >= 2 {
            assert(g2.shader_jobs[0].name == n0 && g2.shader_jobs[1].name == n0);
        }
    }
    if shader_names(stages).contains(n0) {
        let a = choose|a: int| 0 <= a < stages.len() && stages[a].shader@ == n0;
        assert(fin.sref.contains(n0));
        assert(has_shader_job(g2.shader_jobs, n0));
        assert(g2.shader_jobs.len() >= 1);
    }
}

/// Applying a plan with no jobs changes nothing: the maps are only
/// restricted again to names they already lie within, which is the
/// identity. With the idempotence law this says the second of two refreshes
/// with no filesystem change in between leaves every entry, and its
/// timestamp, exactly as it was.
pub proof fn lemma_empty_apply_identity(
    m: Map<Seq<char>, crate::expirable::Expirable<u64>>,
    refs: Set<Seq<char>>,
)
    requires
        forall|n: Seq<char>| m.contains_key(n) ==> refs.contains(n),
    ensures
        entries_installed(m, Seq::empty(), Seq::empty()).restrict(refs) == m,
{
    assert(entries_installed(m, Seq::empty(), Seq::empty()).restrict(refs) =~= m);
}

/// Applying a pass whose rebuild orders all name one resource rewrites only
/// that entry: any other name still referenced keeps exactly the entry, and
/// the timestamp, it had before.
pub proof fn lemma_apply_preserves_unplanned(
    m: Map<Seq<char>, crate::expirable::Expirable<u64>>,
    names: Seq<Seq<char>>,
    built: Seq<(u64, u64)>,
    refs: Set<Seq<char>>,
    n: Seq<char>,
)
    requires
        names.len() == built.len(),
        forall|i: int| 0 <= i < names.len() ==> names[i] != n,
    ensures
        entries_installed(m, names, built).restrict(refs).contains_key(n) == (m.contains_key(n)
            && refs.contains(n)),
        m.contains_key(n) && refs.contains(n) ==> entries_installed(m, names, built).restrict(
            refs,
        )[n] == m[n],
{
    lemma_installed_miss(m, names, built, n);
}

/// Pruning: by the end of an applied refresh pass the cache holds no entry
/// whose name the current stages do not reference — a removed stage's
/// shader and texture entries are gone.
pub proof fn lemma_refresh_prunes(
    ctx1: Ctx,
    ctx2: Ctx,
    pipe: Pipeline,
    mtimes: Map<Seq<char>, u64>,
    fin: PlanState,
    sbuilt: Seq<(u64, u64)>,
    ibuilt: Seq<(u64, u64)>,
    n: Seq<char>,
)
    requires
        refresh_plan_spec(ctx1, pipe, mtimes) == PlanOutcome::Good(fin),
        sbuilt.len() == fin.shader_jobs.len(),
        ibuilt.len() == fin.image_jobs.len(),
        ctx2.shaders@ == entries_installed(
            ctx1.shaders@,
            fin.shader_jobs.map_values(|j: ShaderJobM| j.name),
            sbuilt,
        ).restrict(fin.sref),
        ctx2.textures@ == entries_installed(
            ctx1.textures@,
            fin.image_jobs.map_values(|j: ImageJobM| j.name),
            ibuilt,
        ).restrict(fin.tref),
    ensures
        !shader_names(pipe.pipeline@).contains(n) ==> !ctx2.shaders@.contains_key(n),
        !file_names(pipe.pipeline@).contains(n) && !output_names(pipe.pipeline@).contains(n)
            ==> !ctx2.textures@.contains_key(n),
{
    lemma_stages_plan_facts(ctx1, mtimes, empty_plan(), pipe.pipeline@, fin);
}

} // verus!
