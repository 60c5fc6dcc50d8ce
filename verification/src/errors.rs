use vstd::prelude::*;

verus! {

/// Everything that can go wrong while refreshing or executing a pass.
///
/// Each variant carries the name, path or diagnostic text involved.
#[derive(Debug, PartialEq)]
pub enum PipeError {
    /// The pipeline description itself is unusable (malformed value,
    /// reference to a shader the cache was never told about, bad color
    /// literal, ...).
    Config(String),
    /// A `Memory` input names a resource that no earlier stage produced
    /// and that is not a declared variable.
    UnknownResource(String),
    /// The render backend rejected a shader at compile time; carries its
    /// diagnostic text.
    ShaderCompile(String),
    /// The render backend rejected a program at link time; carries its
    /// diagnostic text.
    ShaderLink(String),
    /// A line holds an inclusion directive whose target is not bounded by
    /// exactly two double quotes.
    InclusionSyntax(String),
    /// A shader inclusion chain reaches a name that is already being
    /// expanded.
    CyclicInclusion(String),
    /// A file could not be statted, read or written; carries the path.
    Io(String),
    /// A uniform named by the pipeline is absent from the bound program.
    MissingUniform(String),
}

/// The mathematical value of an error: its kind and the character sequence
/// it carries.
pub enum ErrView {
    Config(Seq<char>),
    UnknownResource(Seq<char>),
    ShaderCompile(Seq<char>),
    ShaderLink(Seq<char>),
    InclusionSyntax(Seq<char>),
    CyclicInclusion(Seq<char>),
    Io(Seq<char>),
    MissingUniform(Seq<char>),
}

impl View for PipeError {
    type V = ErrView;

    open spec fn view(&self) -> ErrView {
        match self {
            PipeError::Config(s) => ErrView::Config(s@),
            PipeError::UnknownResource(s) => ErrView::UnknownResource(s@),
            PipeError::ShaderCompile(s) => ErrView::ShaderCompile(s@),
            PipeError::ShaderLink(s) => ErrView::ShaderLink(s@),
            PipeError::InclusionSyntax(s) => ErrView::InclusionSyntax(s@),
            PipeError::CyclicInclusion(s) => ErrView::CyclicInclusion(s@),
            PipeError::Io(s) => ErrView::Io(s@),
            PipeError::MissingUniform(s) => ErrView::MissingUniform(s@),
        }
    }
}

/// A number telling the kinds of error apart.
pub open spec fn kind_of(v: ErrView) -> int {
    match v {
        ErrView::Config(_) => 0,
        ErrView::UnknownResource(_) => 1,
        ErrView::ShaderCompile(_) => 2,
        ErrView::ShaderLink(_) => 3,
        ErrView::InclusionSyntax(_) => 4,
        ErrView::CyclicInclusion(_) => 5,
        ErrView::Io(_) => 6,
        ErrView::MissingUniform(_) => 7,
    }
}

/// The character sequence an error carries.
pub open spec fn text_of(v: ErrView) -> Seq<char> {
    match v {
        ErrView::Config(s) => s,
        ErrView::UnknownResource(s) => s,
        ErrView::ShaderCompile(s) => s,
        ErrView::ShaderLink(s) => s,
        ErrView::InclusionSyntax(s) => s,
        ErrView::CyclicInclusion(s) => s,
        ErrView::Io(s) => s,
        ErrView::MissingUniform(s) => s,
    }
}

fn kind(e: &PipeError) -> (r: u8)
    ensures
        r == kind_of(e@),
{
    match e {
        PipeError::Config(_) => 0,
        PipeError::UnknownResource(_) => 1,
        PipeError::ShaderCompile(_) => 2,
        PipeError::ShaderLink(_) => 3,
        PipeError::InclusionSyntax(_) => 4,
        PipeError::CyclicInclusion(_) => 5,
        PipeError::Io(_) => 6,
        PipeError::MissingUniform(_) => 7,
    }
}

/// The name, path or diagnostic text an error carries.
pub fn error_text(e: &PipeError) -> (r: &String)
    ensures
        r@ == text_of(e@),
{
    match e {
        PipeError::Config(s) => s,
        PipeError::UnknownResource(s) => s,
        PipeError::ShaderCompile(s) => s,
        PipeError::ShaderLink(s) => s,
        PipeError::InclusionSyntax(s) => s,
        PipeError::CyclicInclusion(s) => s,
        PipeError::Io(s) => s,
        PipeError::MissingUniform(s) => s,
    }
}

/// Two errors are the same exactly when their kinds and carried texts agree.
pub fn same_error(a: &PipeError, b: &PipeError) -> (r: bool)
    ensures
        r == (a@ == b@),
{
    let r = kind(a) == kind(b) && *error_text(a) == *error_text(b);
    proof {
        if kind_of(a@) == kind_of(b@) && text_of(a@) == text_of(b@) {
            assert(a@ == b@);
        }
    }
    r
}

} // verus!
