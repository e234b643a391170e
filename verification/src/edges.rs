//! Base-image declarations.
//!
//! A build-definition file declares its base images one per line: a line
//! whose first whitespace-separated token is the reserved keyword `FROM`
//! names the base image in its second token.  The file is split at `\n`;
//! token separators are the ASCII whitespace characters.  A declaration
//! line with no second token is malformed and makes the whole extraction
//! fail, as the run treats input files as a correctness precondition.

use vstd::prelude::*;

verus! {

/// The token separators: ASCII whitespace.
pub open spec fn is_space(c: char) -> bool {
    c == ' ' || c == '\t' || c == '\r' || c == '\u{b}' || c == '\u{c}'
}

/// The reserved keyword that marks a base-image declaration.
pub open spec fn from_keyword() -> Seq<char> {
    seq!['F', 'R', 'O', 'M']
}

/// Drops leading whitespace.
pub open spec fn skip_spaces(s: Seq<char>) -> Seq<char>
    decreases s.len(),
{
    if s.len() > 0 && is_space(s[0]) {
        skip_spaces(s.skip(1))
    } else {
        s
    }
}

/// The longest whitespace-free prefix.
pub open spec fn first_token(s: Seq<char>) -> Seq<char>
    decreases s.len(),
{
    if s.len() > 0 && !is_space(s[0]) {
        seq![s[0]] + first_token(s.skip(1))
    } else {
        Seq::empty()
    }
}

/// What remains after the longest whitespace-free prefix.
pub open spec fn after_token(s: Seq<char>) -> Seq<char>
    decreases s.len(),
{
    if s.len() > 0 && !is_space(s[0]) {
        after_token(s.skip(1))
    } else {
        s
    }
}

/// A line is a base-image declaration when its first token is the keyword.
pub open spec fn is_base_decl(line: Seq<char>) -> bool {
    first_token(skip_spaces(line)) == from_keyword()
}

/// The second whitespace-separated token of a line: the declared base image.
pub open spec fn base_of(line: Seq<char>) -> Seq<char> {
    first_token(skip_spaces(after_token(skip_spaces(line))))
}

/// A declaration line without a second token is malformed.
pub open spec fn decl_malformed(line: Seq<char>) -> bool {
    is_base_decl(line) && base_of(line).len() == 0
}

/// The lines of `s`, split at `\n`; an empty input yields one empty line.
pub open spec fn split_lines(s: Seq<char>) -> Seq<Seq<char>>
    decreases s.len(),
{
    if s.len() == 0 {
        seq![Seq::empty()]
    } else if s[0] == '\n' {
        seq![Seq::empty()] + split_lines(s.skip(1))
    } else {
        let rest = split_lines(s.skip(1));
        seq![seq![s[0]] + rest[0]] + rest.skip(1)
    }
}

/// The declared bases of a sequence of lines, in line order.
pub open spec fn bases_of_lines(lines: Seq<Seq<char>>) -> Seq<Seq<char>>
    decreases lines.len(),
{
    if lines.len() == 0 {
        Seq::empty()
    } else {
        let rest = bases_of_lines(lines.drop_last());
        if is_base_decl(lines.last()) {
            rest.push(base_of(lines.last()))
        } else {
            rest
        }
    }
}

/// The declared bases of a whole file.
pub open spec fn file_bases(contents: Seq<char>) -> Seq<Seq<char>> {
    bases_of_lines(split_lines(contents))
}

/// Whether some line of a file is a malformed declaration.
pub open spec fn file_malformed(contents: Seq<char>) -> bool {
    exists|i: int|
        0 <= i < split_lines(contents).len() && decl_malformed(#[trigger] split_lines(contents)[i])
}

/// A base-image declaration line with no second token; `line` is its
/// zero-based index in the file.
#[derive(Clone, Copy, PartialEq, Eq, Structural, Debug)]
pub struct DeclarationParseError {
    pub line: usize,
}

/// Splitting never yields an empty line list.
proof fn lemma_split_nonempty(s: Seq<char>)
    ensures
        split_lines(s).len() >= 1,
    decreases s.len(),
{
    if s.len() > 0 {
        lemma_split_nonempty(s.skip(1));
    }
}

/// How one more character extends the line split: a newline starts a new
/// empty line, anything else extends the last line.
proof fn lemma_split_snoc(s: Seq<char>, c: char)
    ensures
        c == '\n' ==> split_lines(s.push(c)) == split_lines(s).push(Seq::<char>::empty()),
        c != '\n' ==> split_lines(s.push(c)) == split_lines(s).update(
            split_lines(s).len() - 1,
            split_lines(s).last().push(c),
        ),
    decreases s.len(),
{
    lemma_split_nonempty(s);
    if s.len() == 0 {
        let t = s.push(c);
        assert(t.len() == 1 && t[0] == c);
        assert(t.skip(1) =~= Seq::<char>::empty());
        assert(split_lines(t.skip(1)) =~~= seq![Seq::<char>::empty()]);
        if c == '\n' {
            assert(split_lines(t) == seq![Seq::<char>::empty()] + split_lines(t.skip(1)));
            assert(split_lines(t) =~~= split_lines(s).push(Seq::<char>::empty()));
        } else {
            assert(split_lines(t) == seq![seq![c] + split_lines(t.skip(1))[0]] + split_lines(
                t.skip(1),
            ).skip(1));
            assert(seq![c] + split_lines(t.skip(1))[0] =~= Seq::<char>::empty().push(c));
            assert(split_lines(t) =~~= split_lines(s).update(0, split_lines(s).last().push(c)));
        }
    } else {
        let t = s.push(c);
        assert(t[0] == s[0]);
        assert(t.skip(1) =~= s.skip(1).push(c));
        lemma_split_snoc(s.skip(1), c);
        lemma_split_nonempty(s.skip(1));
        let x = split_lines(s.skip(1));
        if s[0] == '\n' {
            if c == '\n' {
                assert(split_lines(t) =~~= split_lines(s).push(Seq::<char>::empty()));
            } else {
                assert(split_lines(t) =~~= split_lines(s).update(
                    split_lines(s).len() - 1,
                    split_lines(s).last().push(c),
                ));
            }
        } else {
            if c == '\n' {
                assert(x.push(Seq::<char>::empty())[0] == x[0]);
                assert(split_lines(t) =~~= split_lines(s).push(Seq::<char>::empty()));
            } else {
                let r = x.update(x.len() - 1, x.last().push(c));
                assert(r[0] == if x.len() == 1 {
                    x.last().push(c)
                } else {
                    x[0]
                });
                if x.len() == 1 {
                    assert(seq![s[0]] + x[0].push(c) =~= (seq![s[0]] + x[0]).push(c));
                    assert(split_lines(s).last() == seq![s[0]] + x[0]);
                    assert(split_lines(t) =~= split_lines(s).update(
                        split_lines(s).len() - 1,
                        split_lines(s).last().push(c),
                    ));
                } else {
                    assert(split_lines(s).last() == x.last());
                    assert(split_lines(t) =~= split_lines(s).update(
                        split_lines(s).len() - 1,
                        split_lines(s).last().push(c),
                    ));
                }
            }
        }
    }
}

/// Splits a file into its lines.
fn split_lines_exec(contents: &Vec<char>) -> (r: Vec<Vec<char>>)
    ensures
        r.deep_view() == split_lines(contents@),
        r.len() >= 1,
{
    let mut done: Vec<Vec<char>> = Vec::new();
    let mut current: Vec<char> = Vec::new();
    proof {
        assert(contents@.take(0) =~= Seq::<char>::empty());
        assert(done.deep_view().push(current@) =~~= split_lines(contents@.take(0)));
    }
    let mut i: usize = 0;
    while i < contents.len()
        invariant
            i <= contents@.len(),
            split_lines(contents@.take(i as int)) == done.deep_view().push(current@),
        decreases contents.len() - i,
    {
        let c = contents[i];
        proof {
            assert(contents@.take(i + 1) =~= contents@.take(i as int).push(c));
            lemma_split_snoc(contents@.take(i as int), c);
        }
        if c == '\n' {
            let ghost old_done = done.deep_view();
            let ghost old_current = current@;
            done.push(current);
            current = Vec::new();
            proof {
                assert(done.deep_view() =~~= old_done.push(old_current));
                assert(split_lines(contents@.take(i + 1)) =~~= done.deep_view().push(current@));
            }
        } else {
            let ghost prev = done.deep_view().push(current@);
            current.push(c);
            proof {
                assert(split_lines(contents@.take(i + 1)) =~= prev.update(
                    prev.len() - 1,
                    prev.last().push(c),
                ));
                assert(prev.update(prev.len() - 1, prev.last().push(c)) =~~= done.deep_view().push(
                    current@,
                ));
            }
        }
        i = i + 1;
    }
    proof {
        assert(contents@.take(contents@.len() as int) =~= contents@);
    }
    done.push(current);
    proof {
        lemma_split_nonempty(contents@);
        assert(done.deep_view() =~~= split_lines(contents@));
    }
    done
}

/// A whitespace prefix is what `skip_spaces` drops.
proof fn lemma_skip_spaces_at(s: Seq<char>, k: int)
    requires
        0 <= k <= s.len(),
        forall|m: int| 0 <= m < k ==> is_space(#[trigger] s[m]),
        k < s.len() ==> !is_space(s[k]),
    ensures
        skip_spaces(s) == s.skip(k),
    decreases k,
{
    if k == 0 {
        assert(s.skip(0) =~= s);
    } else {
        assert(is_space(s[0]));
        assert forall|m: int| 0 <= m < k - 1 implies is_space(#[trigger] s.skip(1)[m]) by {
            assert(s.skip(1)[m] == s[m + 1]);
        }
        assert(k - 1 < s.skip(1).len() ==> !is_space(s.skip(1)[k - 1]));
        lemma_skip_spaces_at(s.skip(1), k - 1);
        assert(s.skip(1).skip(k - 1) =~= s.skip(k));
    }
}

/// A token runs to the first whitespace: `first_token` takes it and
/// `after_token` drops it.
proof fn lemma_token_at(s: Seq<char>, k: int)
    requires
        0 <= k <= s.len(),
        forall|m: int| 0 <= m < k ==> !is_space(#[trigger] s[m]),
        k < s.len() ==> is_space(s[k]),
    ensures
        first_token(s) == s.take(k),
        after_token(s) == s.skip(k),
    decreases k,
{
    if k == 0 {
        assert(s.take(0) =~= Seq::<char>::empty());
        assert(s.skip(0) =~= s);
    } else {
        assert(!is_space(s[0]));
        assert forall|m: int| 0 <= m < k - 1 implies !is_space(#[trigger] s.skip(1)[m]) by {
            assert(s.skip(1)[m] == s[m + 1]);
        }
        assert(k - 1 < s.skip(1).len() ==> is_space(s.skip(1)[k - 1]));
        lemma_token_at(s.skip(1), k - 1);
        assert(s.skip(1).skip(k - 1) =~= s.skip(k));
        assert(seq![s[0]] + s.skip(1).take(k - 1) =~= s.take(k));
    }
}

/// Decides whether a character separates tokens.
fn is_space_char(c: char) -> (r: bool)
    ensures
        r == is_space(c),
{
    c == ' ' || c == '\t' || c == '\r' || c == '\u{b}' || c == '\u{c}'
}

/// Finds the next whitespace-separated token at or after `from`: returns its
/// bounds, an empty range at the end of the line when none remains.
fn scan_token(line: &Vec<char>, from: usize) -> (r: (usize, usize))
    requires
        from <= line@.len(),
    ensures
        ({
            let s = line@.skip(from as int);
            &&& from <= r.0 <= r.1 <= line@.len()
            &&& line@.subrange(r.0 as int, r.1 as int) == first_token(skip_spaces(s))
            &&& line@.skip(r.1 as int) == after_token(skip_spaces(s))
        }),
{
    let ghost s = line@.skip(from as int);
    let mut i: usize = from;
    while i < line.len() && is_space_char(line[i])
        invariant
            from <= i <= line@.len(),
            forall|m: int| from <= m < i ==> is_space(#[trigger] line@[m]),
        decreases line.len() - i,
    {
        i = i + 1;
    }
    proof {
        assert forall|m: int| 0 <= m < i - from implies is_space(#[trigger] s[m]) by {
            assert(s[m] == line@[from + m]);
        }
        assert(i - from < s.len() ==> !is_space(s[i - from]));
        lemma_skip_spaces_at(s, i - from);
        assert(s.skip(i - from) =~= line@.skip(i as int));
    }
    let mut j: usize = i;
    while j < line.len() && !is_space_char(line[j])
        invariant
            i <= j <= line@.len(),
            forall|m: int| i <= m < j ==> !is_space(#[trigger] line@[m]),
        decreases line.len() - j,
    {
        j = j + 1;
    }
    proof {
        let t = line@.skip(i as int);
        assert forall|m: int| 0 <= m < j - i implies !is_space(#[trigger] t[m]) by {
            assert(t[m] == line@[i + m]);
        }
        assert(j - i < t.len() ==> is_space(t[j - i]));
        lemma_token_at(t, j - i);
        assert(t.take(j - i) =~= line@.subrange(i as int, j as int));
        assert(t.skip(j - i) =~= line@.skip(j as int));
    }
    (i, j)
}

/// What one line contributes: not a declaration, a declared base, or a
/// malformed declaration with no second token.
pub enum LineReading {
    Plain,
    Base(Vec<char>),
    Malformed,
}

/// Reads one line: classifies it and extracts the declared base, if any.
pub fn read_line(line: &Vec<char>) -> (r: LineReading)
    ensures
        match r {
            LineReading::Plain => !is_base_decl(line@),
            LineReading::Base(b) => is_base_decl(line@) && b@ == base_of(line@) && b@.len() > 0,
            LineReading::Malformed => decl_malformed(line@),
        },
{
    let (s1, e1) = scan_token(line, 0);
    proof {
        assert(line@.skip(0) =~= line@);
    }
    let kw: Vec<char> = vec!['F', 'R', 'O', 'M'];
    proof {
        assert(kw@ =~= from_keyword());
    }
    if e1 - s1 != kw.len() {
        proof {
            assert(first_token(skip_spaces(line@)).len() == e1 - s1);
        }
        return LineReading::Plain;
    }
    let mut k: usize = 0;
    while k < kw.len()
        invariant
            kw@ == from_keyword(),
            e1 - s1 == kw@.len(),
            s1 <= e1 <= line@.len(),
            line@.subrange(s1 as int, e1 as int) == first_token(skip_spaces(line@)),
            k <= kw@.len(),
            forall|m: int| 0 <= m < k ==> line@[s1 + m] == kw@[m],
        decreases kw.len() - k,
    {
        if line[s1 + k] != kw[k] {
            proof {
                assert(first_token(skip_spaces(line@))[k as int] != from_keyword()[k as int]);
            }
            return LineReading::Plain;
        }
        k = k + 1;
    }
    proof {
        assert(line@.subrange(s1 as int, e1 as int) =~= from_keyword());
        assert(is_base_decl(line@));
    }
    let (s2, e2) = scan_token(line, e1);
    proof {
        assert(base_of(line@) == line@.subrange(s2 as int, e2 as int));
    }
    if s2 == e2 {
        proof {
            assert(base_of(line@).len() == 0);
        }
        return LineReading::Malformed;
    }
    let mut base: Vec<char> = Vec::new();
    let mut m: usize = s2;
    while m < e2
        invariant
            s2 <= m <= e2 <= line@.len(),
            base@ == line@.subrange(s2 as int, m as int),
        decreases e2 - m,
    {
        let c = line[m];
        base.push(c);
        proof {
            assert(line@.subrange(s2 as int, m + 1) =~= line@.subrange(s2 as int, m as int).push(
                c,
            ));
        }
        m = m + 1;
    }
    LineReading::Base(base)
}

/// Extracts every declared base image of one build-definition file, in line
/// order, or reports the first malformed declaration line.  Extraction
/// succeeds exactly when no declaration line lacks its second token.
pub fn extract_bases(contents: &Vec<char>) -> (r: Result<Vec<Vec<char>>, DeclarationParseError>)
    ensures
        r is Ok <==> !file_malformed(contents@),
        r matches Ok(bases) ==> bases.deep_view() == file_bases(contents@),
        r matches Err(e) ==> e.line < split_lines(contents@).len() && decl_malformed(
            split_lines(contents@)[e.line as int],
        ),
{
    let lines = split_lines_exec(contents);
    let ghost lv = split_lines(contents@);
    let mut bases: Vec<Vec<char>> = Vec::new();
    proof {
        assert(lv.take(0) =~= Seq::<Seq<char>>::empty());
        assert(bases.deep_view() =~~= bases_of_lines(lv.take(0)));
    }
    let mut i: usize = 0;
    while i < lines.len()
        invariant
            lv == split_lines(contents@),
            lines.deep_view() == lv,
            i <= lv.len(),
            bases.deep_view() == bases_of_lines(lv.take(i as int)),
            forall|k: int| 0 <= k < i ==> !decl_malformed(#[trigger] lv[k]),
        decreases lines.len() - i,
    {
        let ghost prev = bases.deep_view();
        proof {
            assert(lv.take(i + 1).drop_last() =~= lv.take(i as int));
            assert(lv.take(i + 1).last() == lv[i as int]);
            assert(lines@[i as int].deep_view() == lv[i as int]);
            assert(lines@[i as int]@ =~= lines@[i as int].deep_view());
        }
        match read_line(&lines[i]) {
            LineReading::Plain => {
                proof {
                    assert(bases.deep_view() =~~= bases_of_lines(lv.take(i + 1)));
                }
            },
            LineReading::Base(b) => {
                let ghost bv = b@;
                bases.push(b);
                proof {
                    assert(bv == base_of(lv[i as int]));
                    assert(bases.deep_view() =~~= prev.push(bv));
                    assert(bases.deep_view() =~~= bases_of_lines(lv.take(i + 1)));
                }
            },
            LineReading::Malformed => {
                proof {
                    assert(lv.len() == lines@.len());
                    assert(i < lv.len());
                    assert(decl_malformed(lines@[i as int]@));
                    assert(lv[i as int] == lines@[i as int]@);
                    assert(decl_malformed(split_lines(contents@)[i as int]));
                    assert(file_malformed(contents@));
                }
                return Err(DeclarationParseError { line: i });
            },
        }
        i = i + 1;
    }
    proof {
        assert(lv.take(lv.len() as int) =~= lv);
    }
    Ok(bases)
}

} // verus!
