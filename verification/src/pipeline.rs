use vstd::prelude::*;

verus! {

/// A literal value bound directly to a uniform.
///
/// Scalar and vector components are carried as 32-bit IEEE 754 bit
/// patterns; the pipeline logic never interprets them numerically, it only
/// routes them to the render backend, which reassembles the floats.
#[derive(Debug, PartialEq)]
pub enum Expr {
    Float(u32),
    Vec2(u32, u32),
    Vec3(u32, u32, u32),
    Vec4(u32, u32, u32, u32),
    /// A `"#rrggbb"` color literal, decoded at bind time.
    ColorString(String),
}

/// The mathematical value of a literal expression, with color literals as
/// character sequences.
pub enum ExprV {
    Float(u32),
    Vec2(u32, u32),
    Vec3(u32, u32, u32),
    Vec4(u32, u32, u32, u32),
    ColorString(Seq<char>),
}

impl View for Expr {
    type V = ExprV;

    open spec fn view(&self) -> ExprV {
        match self {
            Expr::Float(a) => ExprV::Float(*a),
            Expr::Vec2(a, b) => ExprV::Vec2(*a, *b),
            Expr::Vec3(a, b, c) => ExprV::Vec3(*a, *b, *c),
            Expr::Vec4(a, b, c, d) => ExprV::Vec4(*a, *b, *c, *d),
            Expr::ColorString(s) => ExprV::ColorString(s@),
        }
    }
}

impl Expr {
    /// An equal-valued copy of the expression.
    pub fn duplicate(&self) -> (r: Expr)
        ensures
            r@ == self@,
    {
        match self {
            Expr::Float(a) => Expr::Float(*a),
            Expr::Vec2(a, b) => Expr::Vec2(*a, *b),
            Expr::Vec3(a, b, c) => Expr::Vec3(*a, *b, *c),
            Expr::Vec4(a, b, c, d) => Expr::Vec4(*a, *b, *c, *d),
            Expr::ColorString(s) => Expr::ColorString(s.clone()),
        }
    }
}

/// One typed binding consumed by a stage.
#[derive(Debug, PartialEq)]
pub enum Input {
    /// An image loaded from disk, bound as a sampler.
    File { name: String, uniform: String },
    /// A texture produced by an earlier stage, or failing that a declared
    /// variable, bound as a sampler or as a scalar/vector uniform.
    Memory { name: String, uniform: String },
    /// A literal value bound directly, never cached.
    Expr { uniform: String, expr: Expr },
}

/// Where a stage's rendered output goes.
#[derive(Debug, PartialEq)]
pub enum Source {
    File,
    Memory,
}

/// Whether a stage's output is shown as an on-screen tile after the pass.
#[derive(Debug, PartialEq)]
pub enum Preview {
    Disabled,
    Simple,
}

impl Default for Preview {
    fn default() -> (r: Self)
        ensures
            r == Preview::Disabled,
    {
        Preview::Disabled
    }
}

/// Whether the draw call of a stage is timed and reported.
#[derive(Debug, PartialEq)]
pub enum Profiling {
    Disabled,
    Clock,
}

impl Default for Profiling {
    fn default() -> (r: Self)
        ensures
            r == Profiling::Disabled,
    {
        Profiling::Disabled
    }
}

/// The one output of a stage: a destination, a resource name and a size.
#[derive(Debug, PartialEq)]
pub struct Output {
    pub dst: Source,
    pub name: String,
    pub width: u32,
    pub height: u32,
    pub preview: Preview,
}

/// One shader execution step: a shader name, ordered inputs and one output.
#[derive(Debug, PartialEq)]
pub struct Stage {
    pub shader: String,
    pub inputs: Vec<Input>,
    pub output: Output,
    pub debug_shader: Option<String>,
    pub profiling: Profiling,
}

/// The declarative model of a whole pass: an ordered list of stages and the
/// pipeline-wide variables, in declaration order.
#[derive(Debug, PartialEq)]
pub struct Pipeline {
    pub pipeline: Vec<Stage>,
    pub variables: Vec<(String, Expr)>,
}

/// How many of the given stages have a preview that is not disabled.
pub open spec fn preview_count(stages: Seq<Stage>) -> int
    decreases stages.len(),
{
    if stages.len() == 0 {
        0
    } else {
        preview_count(stages.drop_last()) + if stages.last().output.preview is Disabled {
            0int
        } else {
            1int
        }
    }
}

proof fn lemma_preview_count_bound(stages: Seq<Stage>)
    ensures
        0 <= preview_count(stages) <= stages.len(),
    decreases stages.len(),
{
    if stages.len() > 0 {
        lemma_preview_count_bound(stages.drop_last());
    }
}

impl Pipeline {
    /// Counts the stages whose output preview mode is not disabled; the
    /// caller sizes its display surface from this.
    pub fn number_of_previews(&self) -> (r: usize)
        ensures
            r == preview_count(self.pipeline@),
    {
        let mut r: usize = 0;
        let mut i: usize = 0;
        while i < self.pipeline.len()
            invariant
                i <= self.pipeline.len(),
                r <= i,
                r == preview_count(self.pipeline@.take(i as int)),
            decreases self.pipeline.len() - i,
        {
            proof {
                assert(self.pipeline@.take(i + 1).drop_last() =~= self.pipeline@.take(i as int));
                assert(self.pipeline@.take(i + 1).last() == self.pipeline@[i as int]);
                lemma_preview_count_bound(self.pipeline@.take(i + 1));
            }
            match self.pipeline[i].output.preview {
                Preview::Disabled => (),
                Preview::Simple => {
                    r += 1;
                },
            }
            i += 1;
        }
        proof {
            assert(self.pipeline@.take(self.pipeline@.len() as int) =~= self.pipeline@);
        }
        r
    }
}

} // verus!
