use vstd::prelude::*;


use crate::errors::{ErrView, PipeError};
use crate::names::{NameMap, NameSet};

verus! {

/// Whether a character counts as leading whitespace of a line.
pub open spec fn is_ws(c: char) -> bool {
    c == ' ' || c == '\t'
}

/// The index of the first newline of `s`, or `s.len()` when there is none.
pub open spec fn first_nl(s: Seq<char>) -> int
    decreases s.len(),
{
    if s.len() == 0 {
        0
    } else if s.first() == '\n' {
        0
    } else {
        1 + first_nl(s.drop_first())
    }
}

proof fn lemma_first_nl(s: Seq<char>)
    ensures
        0 <= first_nl(s) <= s.len(),
        first_nl(s) < s.len() ==> s[first_nl(s)] == '\n',
        forall|j: int| 0 <= j < first_nl(s) ==> s[j] != '\n',
    decreases s.len(),
{
    if s.len() > 0 && s.first() != '\n' {
        lemma_first_nl(s.drop_first());
        assert forall|j: int| 0 <= j < first_nl(s) implies s[j] != '\n' by {
            if j > 0 {
                assert(s.drop_first()[j - 1] == s[j]);
            }
        }
    }
}

proof fn lemma_first_nl_at(s: Seq<char>, k: int)
    requires
        0 <= k <= s.len(),
        k < s.len() ==> s[k] == '\n',
        forall|j: int| 0 <= j < k ==> s[j] != '\n',
    ensures
        first_nl(s) == k,
    decreases s.len(),
{
    if s.len() > 0 && s.first() != '\n' {
        assert forall|j: int| 0 <= j < k - 1 implies s.drop_first()[j] != '\n' by {
            assert(s.drop_first()[j] == s[j + 1]);
        }
        lemma_first_nl_at(s.drop_first(), k - 1);
    }
}

/// The text of `s` cut at its newlines; a trailing newline closes the last
/// line rather than opening an empty one.
pub open spec fn split_lines(s: Seq<char>) -> Seq<Seq<char>>
    decreases s.len(),
    via split_lines_dec
{
    if s.len() == 0 {
        Seq::empty()
    } else {
        let k = first_nl(s);
        if k == s.len() {
            seq![s]
        } else {
            seq![s.take(k)] + split_lines(s.skip(k + 1))
        }
    }
}

#[via_fn]
proof fn split_lines_dec(s: Seq<char>) {
    if s.len() > 0 {
        lemma_first_nl(s);
    }
}

/// The index of the first character of `s` that is not leading whitespace,
/// or `s.len()` when all of it is.
pub open spec fn first_non_ws(s: Seq<char>) -> int
    decreases s.len(),
{
    if s.len() == 0 {
        0
    } else if !is_ws(s.first()) {
        0
    } else {
        1 + first_non_ws(s.drop_first())
    }
}

proof fn lemma_first_non_ws_at(s: Seq<char>, k: int)
    requires
        0 <= k <= s.len(),
        k < s.len() ==> !is_ws(s[k]),
        forall|j: int| 0 <= j < k ==> is_ws(#[trigger] s[j]),
    ensures
        first_non_ws(s) == k,
    decreases s.len(),
{
    if s.len() > 0 && is_ws(s.first()) {
        assert forall|j: int| 0 <= j < k - 1 implies is_ws(#[trigger] s.drop_first()[j]) by {
            assert(s.drop_first()[j] == s[j + 1]);
        }
        lemma_first_non_ws_at(s.drop_first(), k - 1);
    }
}

/// The characters that open an inclusion directive, after any leading
/// whitespace: a hash sign followed by the directive word.
pub open spec fn directive_chars() -> Seq<char> {
    seq!['#', 'i', 'n', 'c', 'l', 'u', 'd', 'e']
}

/// A line whose trimmed form starts with the inclusion directive.
pub open spec fn is_directive_line(line: Seq<char>) -> bool {
    let t = line.skip(first_non_ws(line));
    t.len() >= 8 && t.take(8) == directive_chars()
}

/// The indexes of the double quotes of a line, in order.
pub open spec fn quote_idxs(s: Seq<char>) -> Seq<int>
    decreases s.len(),
{
    if s.len() == 0 {
        Seq::empty()
    } else {
        quote_idxs(s.drop_last()) + if s.last() == '"' {
            seq![s.len() - 1]
        } else {
            Seq::<int>::empty()
        }
    }
}

proof fn lemma_quote_idxs_bounds(s: Seq<char>)
    ensures
        forall|k: int|
            0 <= k < quote_idxs(s).len() ==> 0 <= #[trigger] quote_idxs(s)[k] < s.len(),
        forall|a: int, b: int|
            0 <= a < b < quote_idxs(s).len() ==> quote_idxs(s)[a] < quote_idxs(s)[b],
    decreases s.len(),
{
    if s.len() > 0 {
        lemma_quote_idxs_bounds(s.drop_last());
        let q = quote_idxs(s.drop_last());
        if s.last() == '"' {
            assert(quote_idxs(s) =~= q.push(s.len() - 1));
            assert forall|k: int|
                0 <= k < quote_idxs(s).len() implies 0 <= #[trigger] quote_idxs(s)[k]
                < s.len() by {
                if k < q.len() {
                    assert(quote_idxs(s)[k] == q[k]);
                }
            }
        } else {
            assert(quote_idxs(s) =~= q);
        }
    }
}

/// The target of a well-formed directive line: the characters strictly
/// between its two quotes.
pub open spec fn directive_target(line: Seq<char>) -> Seq<char> {
    line.subrange(quote_idxs(line)[0] + 1, quote_idxs(line)[1])
}

/// How expanding a name can end.
pub enum ExpandOutcome {
    /// The fully expanded text.
    Done(Seq<char>),
    /// The name is not in the source store: the caller should read the
    /// file of that name and add it.
    NeedFile(Seq<char>),
    /// The source store records that the file of this name could not be
    /// read.
    Unreadable(Seq<char>),
    /// A directive line without exactly two double quotes.
    BadLine(Seq<char>),
    /// The name is already being expanded further up the chain.
    Cycle(Seq<char>),
}

/// Expanding one name against the sources: a name already on the expansion
/// path is a cycle; a memoized name answers from the memo; otherwise its
/// text is looked up and expanded line by line, and the fully expanded form
/// is memoized under the name.
pub open spec fn expand_name(
    src: Map<Seq<char>, Option<Seq<char>>>,
    memo: Map<Seq<char>, Seq<char>>,
    visited: Set<Seq<char>>,
    name: Seq<char>,
) -> (ExpandOutcome, Map<Seq<char>, Seq<char>>)
    decreases src.dom().difference(visited).len(), 0int, 0int,
    when src.dom().finite()
    via expand_name_dec
{
    if visited.contains(name) {
        (ExpandOutcome::Cycle(name), memo)
    } else if memo.contains_key(name) {
        (ExpandOutcome::Done(memo[name]), memo)
    } else if !src.contains_key(name) {
        (ExpandOutcome::NeedFile(name), memo)
    } else {
        match src[name] {
            None => (ExpandOutcome::Unreadable(name), memo),
            Some(text) => {
                let r = expand_lines(src, memo, visited.insert(name), split_lines(text));
                match r.0 {
                    ExpandOutcome::Done(t) => (ExpandOutcome::Done(t), r.1.insert(name, t)),
                    _ => r,
                }
            },
        }
    }
}

/// Expanding a sequence of lines in order: each directive line splices the
/// full expansion of its target; every other line is kept followed by a
/// newline; the first failure stops the walk.
pub open spec fn expand_lines(
    src: Map<Seq<char>, Option<Seq<char>>>,
    memo: Map<Seq<char>, Seq<char>>,
    visited: Set<Seq<char>>,
    lines: Seq<Seq<char>>,
) -> (ExpandOutcome, Map<Seq<char>, Seq<char>>)
    decreases src.dom().difference(visited).len(), lines.len(), 1int,
    when src.dom().finite()
    via expand_lines_dec
{
    if lines.len() == 0 {
        (ExpandOutcome::Done(Seq::empty()), memo)
    } else {
        let r = expand_lines(src, memo, visited, lines.drop_last());
        match r.0 {
            ExpandOutcome::Done(acc) => {
                let line = lines.last();
                if is_directive_line(line) {
                    if quote_idxs(line).len() != 2 {
                        (ExpandOutcome::BadLine(line), r.1)
                    } else {
                        let rt = expand_name(src, r.1, visited, directive_target(line));
                        match rt.0 {
                            ExpandOutcome::Done(t) => (ExpandOutcome::Done(acc + t), rt.1),
                            _ => rt,
                        }
                    }
                } else {
                    (ExpandOutcome::Done(acc + line + seq!['\n']), r.1)
                }
            },
            _ => r,
        }
    }
}

#[via_fn]
proof fn expand_name_dec(
    src: Map<Seq<char>, Option<Seq<char>>>,
    memo: Map<Seq<char>, Seq<char>>,
    visited: Set<Seq<char>>,
    name: Seq<char>,
) {
    if !visited.contains(name) && !memo.contains_key(name) && src.contains_key(name) {
        src.dom().lemma_set_insert_diff_decreases(visited, name);
    }
}

#[via_fn]
proof fn expand_lines_dec(
    src: Map<Seq<char>, Option<Seq<char>>>,
    memo: Map<Seq<char>, Seq<char>>,
    visited: Set<Seq<char>>,
    lines: Seq<Seq<char>>,
) {
}

/// One entry of the source store: the text of a file or snippet, or the
/// record that reading the file failed.
#[derive(Debug, PartialEq)]
pub enum SourceText {
    Avail(String),
    Unreadable,
}

impl View for SourceText {
    type V = Option<Seq<char>>;

    open spec fn view(&self) -> Option<Seq<char>> {
        match self {
            SourceText::Avail(s) => Some(s@),
            SourceText::Unreadable => None,
        }
    }
}

/// How one expansion call ends for the caller: the expanded text, a request
/// to read and add one more file, or an error.
#[derive(Debug, PartialEq)]
pub enum Expansion {
    Done(String),
    NeedFile(String),
    Failed(PipeError),
}

/// Whether the returned value carries exactly the outcome the expansion
/// rules give.
pub open spec fn outcome_matches(o: ExpandOutcome, r: Expansion) -> bool {
    match o {
        ExpandOutcome::Done(t) => r matches Expansion::Done(s) && s@ == t,
        ExpandOutcome::NeedFile(n) => r matches Expansion::NeedFile(s) && s@ == n,
        ExpandOutcome::Unreadable(n) => r matches Expansion::Failed(e) && e@ == ErrView::Io(n),
        ExpandOutcome::BadLine(l) => r matches Expansion::Failed(e) && e@
            == ErrView::InclusionSyntax(l),
        ExpandOutcome::Cycle(n) => r matches Expansion::Failed(e) && e@
            == ErrView::CyclicInclusion(n),
    }
}

/// The texts of a source store, as mathematical values.
pub open spec fn src_view(m: Map<Seq<char>, SourceText>) -> Map<Seq<char>, Option<Seq<char>>> {
    m.map_values(|t: SourceText| t@)
}

/// The memoized expansions, as mathematical values.
pub open spec fn memo_view(m: Map<Seq<char>, String>) -> Map<Seq<char>, Seq<char>> {
    m.map_values(|s: String| s@)
}

proof fn lemma_expand_lines_prefix_stops(
    src: Map<Seq<char>, Option<Seq<char>>>,
    memo: Map<Seq<char>, Seq<char>>,
    visited: Set<Seq<char>>,
    lines: Seq<Seq<char>>,
    k: int,
)
    requires
        src.dom().finite(),
        0 <= k <= lines.len(),
        !(expand_lines(src, memo, visited, lines.take(k)).0 is Done),
    ensures
        expand_lines(src, memo, visited, lines) == expand_lines(src, memo, visited, lines.take(k)),
    decreases lines.len(),
{
    if k < lines.len() {
        assert(lines.drop_last().take(k) =~= lines.take(k));
        lemma_expand_lines_prefix_stops(src, memo, visited, lines.drop_last(), k);
    } else {
        assert(lines.take(k) =~= lines);
    }
}

fn split_into_lines(s: &str) -> (r: Vec<String>)
    ensures
        r@.map_values(|l: String| l@) == split_lines(s@),
{
    let n = s.unicode_len();
    let mut r: Vec<String> = Vec::new();
    let mut start: usize = 0;
    let mut i: usize = 0;
    proof {
        assert(s@.skip(0) =~= s@);
        assert(r@.map_values(|l: String| l@) + split_lines(s@) =~= split_lines(s@));
    }
    while i < n
        invariant
            start <= i <= n,
            n == s@.len(),
            r@.map_values(|l: String| l@) + split_lines(s@.skip(start as int)) == split_lines(s@),
            forall|j: int| start <= j < i ==> s@[j] != '\n',
        decreases n - i,
    {
        if s.get_char(i) == '\n' {
            let line = s.substring_char(start, i).to_owned();
            proof {
                let tail = s@.skip(start as int);
                assert forall|j: int| 0 <= j < i - start implies tail[j] != '\n' by {
                    assert(tail[j] == s@[start + j]);
                }
                assert(tail[i - start] == s@[i as int]);
                lemma_first_nl_at(tail, i - start);
                assert(tail.take(i - start) =~= s@.subrange(start as int, i as int));
                assert(tail.skip(i - start + 1) =~= s@.skip(i + 1));
                assert(r@.push(line).map_values(|l: String| l@) =~= r@.map_values(
                    |l: String| l@,
                ).push(line@));
                assert(r@.map_values(|l: String| l@).push(line@) + split_lines(s@.skip(i + 1))
                    =~= r@.map_values(|l: String| l@) + split_lines(tail));
            }
            r.push(line);
            start = i + 1;
        }
        i += 1;
    }
    if start < n {
        let line = s.substring_char(start, n).to_owned();
        proof {
            let tail = s@.skip(start as int);
            assert forall|j: int| 0 <= j < tail.len() implies tail[j] != '\n' by {
                assert(tail[j] == s@[start + j]);
            }
            lemma_first_nl_at(tail, tail.len() as int);
            assert(tail =~= s@.subrange(start as int, n as int));
            assert(r@.push(line).map_values(|l: String| l@) =~= r@.map_values(|l: String| l@).push(
                line@,
            ));
            assert(r@.map_values(|l: String| l@).push(line@) =~= r@.map_values(|l: String| l@)
                + split_lines(tail));
        }
        r.push(line);
    } else {
        proof {
            assert(s@.skip(start as int) =~= Seq::<char>::empty());
            assert(r@.map_values(|l: String| l@) + split_lines(s@.skip(start as int))
                =~= r@.map_values(|l: String| l@));
        }
    }
    r
}

fn find_non_ws(line: &str) -> (r: usize)
    ensures
        r == first_non_ws(line@),
        r <= line@.len(),
{
    let n = line.unicode_len();
    let mut i: usize = 0;
    while i < n
        invariant
            i <= n,
            n == line@.len(),
            forall|j: int| 0 <= j < i ==> is_ws(#[trigger] line@[j]),
        decreases n - i,
    {
        let c = line.get_char(i);
        if c != ' ' && c != '\t' {
            proof {
                lemma_first_non_ws_at(line@, i as int);
            }
            return i;
        }
        i += 1;
    }
    proof {
        lemma_first_non_ws_at(line@, n as int);
    }
    n
}

fn line_is_directive(line: &str) -> (r: bool)
    ensures
        r == is_directive_line(line@),
{
    let n = line.unicode_len();
    let i = find_non_ws(line);
    if n - i < 8 {
        return false;
    }
    let ok = line.get_char(i) == '#' && line.get_char(i + 1) == 'i' && line.get_char(i + 2) == 'n'
        && line.get_char(i + 3) == 'c' && line.get_char(i + 4) == 'l' && line.get_char(i + 5)
        == 'u' && line.get_char(i + 6) == 'd' && line.get_char(i + 7) == 'e';
    proof {
        let t = line@.skip(i as int);
        assert(t.len() >= 8);
        assert forall|j: int| 0 <= j < 8 implies t.take(8)[j] == line@[i + j] by {
            assert(t[j] == line@[i + j]);
        }
        if ok {
            assert(t.take(8) =~= directive_chars());
        } else {
            if t.take(8) == directive_chars() {
                assert(line@[i as int] == t.take(8)[0]);
                assert(line@[i + 1] == t.take(8)[1]);
                assert(line@[i + 2] == t.take(8)[2]);
                assert(line@[i + 3] == t.take(8)[3]);
                assert(line@[i + 4] == t.take(8)[4]);
                assert(line@[i + 5] == t.take(8)[5]);
                assert(line@[i + 6] == t.take(8)[6]);
                assert(line@[i + 7] == t.take(8)[7]);
            }
        }
    }
    ok
}

fn quote_scan(line: &str) -> (r: Vec<usize>)
    ensures
        r@.map_values(|u: usize| u as int) == quote_idxs(line@),
{
    let n = line.unicode_len();
    let mut r: Vec<usize> = Vec::new();
    let mut i: usize = 0;
    while i < n
        invariant
            i <= n,
            n == line@.len(),
            r@.map_values(|u: usize| u as int) == quote_idxs(line@.take(i as int)),
        decreases n - i,
    {
        proof {
            assert(line@.take(i + 1).drop_last() =~= line@.take(i as int));
            assert(line@.take(i + 1).last() == line@[i as int]);
        }
        if line.get_char(i) == '"' {
            proof {
                assert(quote_idxs(line@.take(i + 1)) =~= quote_idxs(line@.take(i as int)) + seq![
                    i as int,
                ]);
                assert(r@.push(i).map_values(|u: usize| u as int) =~= r@.map_values(
                    |u: usize| u as int,
                ).push(i as int));
                assert(r@.map_values(|u: usize| u as int).push(i as int) =~= quote_idxs(
                    line@.take(i + 1),
                ));
            }
            r.push(i);
        } else {
            proof {
                assert(quote_idxs(line@.take(i + 1)) =~= quote_idxs(line@.take(i as int)));
            }
        }
        i += 1;
    }
    proof {
        assert(line@.take(n as int) =~= line@);
    }
    r
}

fn expand_rec(
    sources: &NameMap<SourceText>,
    memo: &mut NameMap<String>,
    visited: &NameSet,
    name: &String,
) -> (r: Expansion)
    ensures
        ({
            let sr = expand_name(src_view(sources@), memo_view(old(memo)@), visited@, name@);
            outcome_matches(sr.0, r) && memo_view(final(memo)@) == sr.1
        }),
    decreases src_view(sources@).dom().difference(visited@).len(),
{
    proof {
        sources.lemma_finite();
        assert(src_view(sources@).dom() =~= sources@.dom());
        assert(memo_view(memo@).dom() =~= memo@.dom());
    }
    let ghost sv = src_view(sources@);
    let ghost m0 = memo_view(memo@);
    if visited.contains(name) {
        return Expansion::Failed(PipeError::CyclicInclusion(name.clone()));
    }
    match memo.get(name) {
        Some(t) => {
            proof {
                assert(m0[name@] == memo@[name@]@);
            }
            return Expansion::Done(t.clone());
        },
        None => (),
    }
    let text: String = match sources.get(name) {
        None => {
            return Expansion::NeedFile(name.clone());
        },
        Some(st) => {
            proof {
                assert(sv[name@] == sources@[name@]@);
            }
            match st {
                SourceText::Unreadable => {
                    return Expansion::Failed(PipeError::Io(name.clone()));
                },
                SourceText::Avail(t) => t.clone(),
            }
        },
    };
    let lines = split_into_lines(text.as_str());
    let mut visited2 = visited.duplicate();
    visited2.insert(name.clone());
    let ghost v2 = visited@.insert(name@);
    proof {
        visited.lemma_finite();
        sv.dom().lemma_set_insert_diff_decreases(visited@, name@);
    }
    let mut acc = String::new();
    let ghost lns = split_lines(text@);
    let mut k: usize = 0;
    while k < lines.len()
        invariant
            k <= lines.len(),
            sv == src_view(sources@),
            sv.dom().finite(),
            m0 == memo_view(old(memo)@),
            v2 == visited@.insert(name@),
            visited2@ == v2,
            !visited@.contains(name@),
            !m0.contains_key(name@),
            sv.contains_key(name@) && sv[name@] == Some(text@),
            lns == split_lines(text@),
            lines@.map_values(|l: String| l@) == lns,
            expand_lines(sv, m0, v2, lns.take(k as int)) == (
                ExpandOutcome::Done(acc@),
                memo_view(memo@),
            ),
            sv.dom().difference(v2).len() < sv.dom().difference(visited@).len(),
        decreases lines.len() - k,
    {
        proof {
            assert(lns.take(k + 1).drop_last() =~= lns.take(k as int));
            assert(lns.take(k + 1).last() == lns[k as int]);
            assert(lines@[k as int]@ == lns[k as int]);
        }
        let ghost m_cur = memo_view(memo@);
        let ghost acc0 = acc@;
        if line_is_directive(lines[k].as_str()) {
            let qs = quote_scan(lines[k].as_str());
            if qs.len() != 2 {
                proof {
                    assert(quote_idxs(lns[k as int]).len() == qs@.map_values(
                        |u: usize| u as int,
                    ).len());
                    lemma_expand_lines_prefix_stops(sv, m0, v2, lns, k + 1);
                }
                return Expansion::Failed(PipeError::InclusionSyntax(lines[k].clone()));
            }
            let q0 = qs[0];
            let q1 = qs[1];
            proof {
                lemma_quote_idxs_bounds(lns[k as int]);
                assert(quote_idxs(lns[k as int])[0] == qs@.map_values(|u: usize| u as int)[0]);
                assert(quote_idxs(lns[k as int])[1] == qs@.map_values(|u: usize| u as int)[1]);
            }
            let target = lines[k].as_str().substring_char(q0 + 1, q1).to_owned();
            proof {
                assert(target@ == directive_target(lns[k as int]));
            }
            match expand_rec(sources, memo, &visited2, &target) {
                Expansion::Done(t) => {
                    acc.append(t.as_str());
                },
                Expansion::NeedFile(f) => {
                    proof {
                        lemma_expand_lines_prefix_stops(sv, m0, v2, lns, k + 1);
                    }
                    return Expansion::NeedFile(f);
                },
                Expansion::Failed(e) => {
                    proof {
                        lemma_expand_lines_prefix_stops(sv, m0, v2, lns, k + 1);
                    }
                    return Expansion::Failed(e);
                },
            }
        } else {
            acc.append(lines[k].as_str());
            acc.append("\n");
            proof {
                reveal_strlit("\n");
                assert("\n"@ =~= seq!['\n']);
                assert(acc@ =~= acc0 + lns[k as int] + seq!['\n']);
            }
        }
        k += 1;
    }
    proof {
        assert(lns.take(lns.len() as int) =~= lns);
    }
    let ghost m_end = memo_view(memo@);
    memo.insert(name.clone(), acc.clone());
    proof {
        assert(memo_view(memo@) =~= m_end.insert(name@, acc@));
    }
    Expansion::Done(acc)
}

/// Expands recursive inclusion directives in shader text, memoizing each
/// fully expanded name. The source store holds the built-in snippets and
/// every file text the caller has added; a name that is neither memoized
/// nor stored is reported back as a file to read. Staleness is the cache's
/// business, not this type's: a caller tracking changed files starts from a
/// fresh preprocessor.
pub struct Preprocessor {
    pub sources: NameMap<SourceText>,
    pub memo: NameMap<String>,
}

/// The built-in standard-library snippets, available under their names
/// without any file on disk.
pub open spec fn standard_sources() -> Map<Seq<char>, Option<Seq<char>>> {
    Map::<Seq<char>, Option<Seq<char>>>::empty().insert(
        "hash.glsl"@,
        Some(
            "float hashf(vec2 p) {\n    vec3 q = fract(vec3(p.xyx) * 0.1031);\n    q += dot(q, q.yzx + 33.33);\n    return fract((q.x + q.y) * q.z);\n}\n"@,
        ),
    ).insert(
        "random.glsl"@,
        Some(
            "float randomf(vec2 st) {\n    return fract(sin(dot(st.xy, vec2(12.9898, 78.233))) * 43758.5453123);\n}\n"@,
        ),
    )
}

impl Preprocessor {
    /// A fresh preprocessor: the standard snippets and nothing memoized.
    pub fn new() -> (r: Preprocessor)
        ensures
            src_view(r.sources@) == standard_sources(),
            memo_view(r.memo@) == Map::<Seq<char>, Seq<char>>::empty(),
    {
        let mut sources: NameMap<SourceText> = NameMap::new();
        sources.insert(
            String::from_str("hash.glsl"),
            SourceText::Avail(
                String::from_str(
                    "float hashf(vec2 p) {\n    vec3 q = fract(vec3(p.xyx) * 0.1031);\n    q += dot(q, q.yzx + 33.33);\n    return fract((q.x + q.y) * q.z);\n}\n",
                ),
            ),
        );
        sources.insert(
            String::from_str("random.glsl"),
            SourceText::Avail(
                String::from_str(
                    "float randomf(vec2 st) {\n    return fract(sin(dot(st.xy, vec2(12.9898, 78.233))) * 43758.5453123);\n}\n",
                ),
            ),
        );
        let memo: NameMap<String> = NameMap::new();
        let r = Preprocessor { sources, memo };
        proof {
            assert(src_view(r.sources@) =~= standard_sources());
            assert(memo_view(r.memo@) =~= Map::<Seq<char>, Seq<char>>::empty());
        }
        r
    }

    /// Whether a text is stored (or known unreadable) under this name.
    pub fn has_source(&self, name: &String) -> (r: bool)
        ensures
            r == src_view(self.sources@).contains_key(name@),
    {
        proof {
            assert(src_view(self.sources@).dom() =~= self.sources@.dom());
        }
        self.sources.contains_key(name)
    }

    /// Stores the text read for `name`, or the fact that reading it failed.
    /// Memoized expansions are dropped: they may mention the new name.
    pub fn add_source(&mut self, name: String, text: Option<String>)
        ensures
            src_view(final(self).sources@) == src_view(old(self).sources@).insert(
                name@,
                match text {
                    Some(t) => Some(t@),
                    None => None,
                },
            ),
            memo_view(final(self).memo@) == Map::<Seq<char>, Seq<char>>::empty(),
    {
        let st = match text {
            Some(t) => SourceText::Avail(t),
            None => SourceText::Unreadable,
        };
        let ghost stv = st@;
        self.sources.insert(name, st);
        self.memo = NameMap::new();
        proof {
            assert(src_view(self.sources@) =~= src_view(old(self).sources@).insert(name@, stv));
            assert(memo_view(self.memo@) =~= Map::<Seq<char>, Seq<char>>::empty());
        }
    }

    /// Fully expands the inclusion directives of the named shader,
    /// answering from the memo where it can and memoizing what it expands.
    pub fn expand(&mut self, name: &String) -> (r: Expansion)
        ensures
            ({
                let sr = expand_name(
                    src_view(old(self).sources@),
                    memo_view(old(self).memo@),
                    Set::empty(),
                    name@,
                );
                outcome_matches(sr.0, r) && memo_view(final(self).memo@) == sr.1
            }),
            final(self).sources == old(self).sources,
    {
        let visited = NameSet::new();
        expand_rec(&self.sources, &mut self.memo, &visited, name)
    }
}

/// Expands the named shader once, over the given sources, with nothing
/// memoized beforehand.
pub fn preprocess_shader(sources: &NameMap<SourceText>, name: &String) -> (r: Expansion)
    ensures
        outcome_matches(
            expand_name(src_view(sources@), Map::empty(), Set::empty(), name@).0,
            r,
        ),
{
    let mut memo: NameMap<String> = NameMap::new();
    let visited = NameSet::new();
    proof {
        assert(memo_view(memo@) =~= Map::<Seq<char>, Seq<char>>::empty());
    }
    expand_rec(sources, &mut memo, &visited, name)
}

/// Expanding a name a second time, with the sources unchanged, answers from
/// the memo the first expansion filled and yields byte-identical text.
pub proof fn lemma_expand_deterministic(
    src: Map<Seq<char>, Option<Seq<char>>>,
    memo: Map<Seq<char>, Seq<char>>,
    name: Seq<char>,
    t: Seq<char>,
)
    requires
        src.dom().finite(),
        expand_name(src, memo, Set::empty(), name).0 == ExpandOutcome::Done(t),
    ensures
        expand_name(src, expand_name(src, memo, Set::empty(), name).1, Set::empty(), name)
            == (ExpandOutcome::Done(t), expand_name(src, memo, Set::empty(), name).1),
{
    let m1 = expand_name(src, memo, Set::empty(), name).1;
    if memo.contains_key(name) {
        assert(m1 == memo);
    } else {
        assert(m1.contains_key(name) && m1[name] == t);
    }
}

} // verus!
