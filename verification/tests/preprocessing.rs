use texture_wizard::errors::PipeError;
use texture_wizard::preprocessor::{preprocess_shader, Expansion, Preprocessor};

fn directive(target: &str) -> String {
    let word: String = ['#', 'i', 'n', 'c', 'l', 'u', 'd', 'e'].iter().collect();
    format!("{} \"{}\"", word, target)
}

fn done(r: Expansion) -> String {
    match r {
        Expansion::Done(t) => t,
        other => panic!("expected an expansion, got {:?}", other),
    }
}

#[test]
fn test_expand_plain_text() {
    let mut p = Preprocessor::new();
    p.add_source("a.frag".into(), Some("void main() {}\n".into()));
    assert_eq!(done(p.expand(&"a.frag".to_string())), "void main() {}\n");
}

#[test]
fn test_expand_normalizes_final_newline() {
    let mut p = Preprocessor::new();
    p.add_source("a.frag".into(), Some("x".into()));
    assert_eq!(done(p.expand(&"a.frag".to_string())), "x\n");
}

#[test]
fn test_expand_splices_target() {
    let mut p = Preprocessor::new();
    p.add_source("b.frag".into(), Some("B1\nB2\n".into()));
    p.add_source(
        "a.frag".into(),
        Some(format!("A1\n{}\nA2\n", directive("b.frag"))),
    );
    assert_eq!(done(p.expand(&"a.frag".to_string())), "A1\nB1\nB2\nA2\n");
}

#[test]
fn test_expand_indented_directive() {
    let mut p = Preprocessor::new();
    p.add_source("b.frag".into(), Some("B\n".into()));
    p.add_source("a.frag".into(), Some(format!("  \t{}\n", directive("b.frag"))));
    assert_eq!(done(p.expand(&"a.frag".to_string())), "B\n");
}

#[test]
fn test_need_file_then_expand() {
    let mut p = Preprocessor::new();
    match p.expand(&"a.frag".to_string()) {
        Expansion::NeedFile(f) => assert_eq!(f, "a.frag"),
        other => panic!("expected a file request, got {:?}", other),
    }
    p.add_source("a.frag".into(), Some("ok\n".into()));
    assert_eq!(done(p.expand(&"a.frag".to_string())), "ok\n");
}

#[test]
fn test_nested_need_file() {
    let mut p = Preprocessor::new();
    p.add_source("a.frag".into(), Some(format!("{}\n", directive("b.frag"))));
    match p.expand(&"a.frag".to_string()) {
        Expansion::NeedFile(f) => assert_eq!(f, "b.frag"),
        other => panic!("expected a file request, got {:?}", other),
    }
    p.add_source("b.frag".into(), Some("B\n".into()));
    assert_eq!(done(p.expand(&"a.frag".to_string())), "B\n");
}

#[test]
fn test_unreadable_source_is_io_error() {
    let mut p = Preprocessor::new();
    p.add_source("a.frag".into(), None);
    assert!(matches!(
        p.expand(&"a.frag".to_string()),
        Expansion::Failed(PipeError::Io(f)) if f == "a.frag"
    ));
}

#[test]
fn test_one_quote_is_syntax_error() {
    let word: String = ['#', 'i', 'n', 'c', 'l', 'u', 'd', 'e'].iter().collect();
    let bad_line = format!("{} \"b.frag", word);
    let mut p = Preprocessor::new();
    p.add_source("a.frag".into(), Some(format!("{}\n", bad_line)));
    assert!(matches!(
        p.expand(&"a.frag".to_string()),
        Expansion::Failed(PipeError::InclusionSyntax(l)) if l == bad_line
    ));
}

#[test]
fn test_three_quotes_is_syntax_error() {
    let word: String = ['#', 'i', 'n', 'c', 'l', 'u', 'd', 'e'].iter().collect();
    let bad_line = format!("{} \"b\"x\"", word);
    let mut p = Preprocessor::new();
    p.add_source("a.frag".into(), Some(format!("{}\n", bad_line)));
    assert!(matches!(
        p.expand(&"a.frag".to_string()),
        Expansion::Failed(PipeError::InclusionSyntax(_))
    ));
}

#[test]
fn test_self_cycle_detected() {
    let mut p = Preprocessor::new();
    p.add_source("a.frag".into(), Some(format!("{}\n", directive("a.frag"))));
    assert!(matches!(
        p.expand(&"a.frag".to_string()),
        Expansion::Failed(PipeError::CyclicInclusion(f)) if f == "a.frag"
    ));
}

#[test]
fn test_mutual_cycle_detected() {
    let mut p = Preprocessor::new();
    p.add_source("a.frag".into(), Some(format!("{}\n", directive("b.frag"))));
    p.add_source("b.frag".into(), Some(format!("{}\n", directive("a.frag"))));
    assert!(matches!(
        p.expand(&"a.frag".to_string()),
        Expansion::Failed(PipeError::CyclicInclusion(f)) if f == "a.frag"
    ));
}

#[test]
fn test_expansion_deterministic() {
    // Expanding the same name twice — the second call answered from the
    // memo — produces byte-identical text.
    let mut p = Preprocessor::new();
    p.add_source("b.frag".into(), Some("B\n".into()));
    p.add_source(
        "a.frag".into(),
        Some(format!("{}\nmid\n{}\n", directive("b.frag"), directive("b.frag"))),
    );
    let first = done(p.expand(&"a.frag".to_string()));
    let second = done(p.expand(&"a.frag".to_string()));
    assert_eq!(first, second);
    assert_eq!(first, "B\nmid\nB\n");
}

#[test]
fn test_standard_snippet_available() {
    let mut p = Preprocessor::new();
    let hash = done(p.expand(&"hash.glsl".to_string()));
    assert!(hash.contains("hashf"));
    let random = done(p.expand(&"random.glsl".to_string()));
    assert!(random.contains("randomf"));
}

#[test]
fn test_directive_pulls_standard_snippet() {
    let mut p = Preprocessor::new();
    p.add_source(
        "a.frag".into(),
        Some(format!("{}\nmain\n", directive("random.glsl"))),
    );
    let out = done(p.expand(&"a.frag".to_string()));
    assert!(out.contains("randomf"));
    assert!(out.ends_with("main\n"));
}

#[test]
fn test_preprocess_shader_fresh_memo() {
    let mut p = Preprocessor::new();
    p.add_source("a.frag".into(), Some("text\n".into()));
    let r = preprocess_shader(&p.sources, &"a.frag".to_string());
    assert!(matches!(r, Expansion::Done(t) if t == "text\n"));
}
