//! Canonical image names.
//!
//! A locally producible image is named after the file it is built from.  The
//! transform strips a leading `./`, rewrites the first kind of reserved
//! marker (`__` becomes the tag separator `:`), removes every literal `.`,
//! strips the trailing extension suffix, and prefixes the local-namespace
//! marker `localhost/`.  The transform is invertible on paths free of the
//! reserved markers; `local_file_path` is the inverse used to recover the
//! build file for a queued local image.

use vstd::prelude::*;

verus! {

/// The local-namespace marker that classifies an image as locally producible.
pub open spec fn localhost_seq() -> Seq<char> {
    seq!['l', 'o', 'c', 'a', 'l', 'h', 'o', 's', 't']
}

/// `localhost/`, the prefix put before every canonical local image name.
pub open spec fn local_prefix_seq() -> Seq<char> {
    localhost_seq() + seq!['/']
}

/// An image name carries the local marker when it starts with `localhost`.
pub open spec fn is_local_name(image: Seq<char>) -> bool {
    image.len() >= localhost_seq().len() && image.take(localhost_seq().len() as int)
        == localhost_seq()
}

/// Drops one leading `./` relative-path marker, if present.
pub open spec fn strip_leading_dot_slash(s: Seq<char>) -> Seq<char> {
    if s.len() >= 2 && s[0] == '.' && s[1] == '/' {
        s.skip(2)
    } else {
        s
    }
}

/// Rewrites each non-overlapping `__` to `:`, scanning left to right.
pub open spec fn replace_dunder(s: Seq<char>) -> Seq<char>
    decreases s.len(),
{
    if s.len() >= 2 && s[0] == '_' && s[1] == '_' {
        seq![':'] + replace_dunder(s.skip(2))
    } else if s.len() >= 1 {
        seq![s[0]] + replace_dunder(s.skip(1))
    } else {
        Seq::empty()
    }
}

/// Removes every `.` character.
pub open spec fn remove_dots(s: Seq<char>) -> Seq<char>
    decreases s.len(),
{
    if s.len() == 0 {
        Seq::empty()
    } else if s[0] == '.' {
        remove_dots(s.skip(1))
    } else {
        seq![s[0]] + remove_dots(s.skip(1))
    }
}

/// The path after the three rewriting stages, before the suffix is stripped.
pub open spec fn processed_path(path: Seq<char>) -> Seq<char> {
    remove_dots(replace_dunder(strip_leading_dot_slash(path)))
}

/// The canonical name of the image produced from `path`.  Meaningful when
/// `ext` is a suffix of the processed path, which `canonical_image_name`
/// checks at run time.
pub open spec fn canonical_name_spec(path: Seq<char>, ext: Seq<char>) -> Seq<char> {
    local_prefix_seq() + processed_path(path).take(processed_path(path).len() - ext.len())
}

/// Rewrites the first `:` to `__`, leaving everything else unchanged.
pub open spec fn replace_first_colon(s: Seq<char>) -> Seq<char>
    decreases s.len(),
{
    if s.len() == 0 {
        Seq::empty()
    } else if s[0] == ':' {
        seq!['_', '_'] + s.skip(1)
    } else {
        seq![s[0]] + replace_first_colon(s.skip(1))
    }
}

/// The build-file path recovered from a canonical local image name: the
/// `localhost` marker becomes `.`, the first `:` becomes `__`, and the
/// extension suffix is appended after a dot.
pub open spec fn local_path_spec(image: Seq<char>, ext: Seq<char>) -> Seq<char> {
    seq!['.'] + replace_first_colon(image).skip(localhost_seq().len() as int) + seq!['.'] + ext
}

/// `s` holds no `__` substring.
pub open spec fn no_dunder(s: Seq<char>) -> bool {
    forall|i: int| 0 <= i && i + 1 < s.len() ==> !(#[trigger] s[i] == '_' && s[i + 1] == '_')
}

/// The executable local-namespace prefix, `localhost/`.
fn local_prefix_chars() -> (r: Vec<char>)
    ensures
        r@ == local_prefix_seq(),
{
    let r: Vec<char> = vec!['l', 'o', 'c', 'a', 'l', 'h', 'o', 's', 't', '/'];
    proof {
        assert(r@ =~= local_prefix_seq());
    }
    r
}

/// Classifies a queued image name: local images carry the `localhost` marker.
pub fn image_is_local(image: &Vec<char>) -> (r: bool)
    ensures
        r == is_local_name(image@),
{
    let marker: Vec<char> = vec!['l', 'o', 'c', 'a', 'l', 'h', 'o', 's', 't'];
    proof {
        assert(marker@ =~= localhost_seq());
    }
    if image.len() < marker.len() {
        return false;
    }
    let mut i: usize = 0;
    while i < marker.len()
        invariant
            marker@ == localhost_seq(),
            image@.len() >= marker@.len(),
            i <= marker.len(),
            forall|k: int| 0 <= k < i ==> image@[k] == marker@[k],
        decreases marker.len() - i,
    {
        if image[i] != marker[i] {
            proof {
                assert(image@.take(localhost_seq().len() as int)[i as int] != localhost_seq()[i as int]);
            }
            return false;
        }
        i = i + 1;
    }
    proof {
        assert(image@.take(localhost_seq().len() as int) =~= localhost_seq());
    }
    true
}

/// Computes the canonical image name for a scanned file path, or `None` when
/// the configured extension is not a suffix of the processed path (the
/// scanner only hands over matching files, so `None` flags a configuration
/// mismatch instead of failing the whole run).
pub fn canonical_image_name(path: &Vec<char>, ext: &Vec<char>) -> (r: Option<Vec<char>>)
    ensures
        r is Some <==> crate::is_suffix_of(ext@, processed_path(path@)),
        r is Some ==> r->Some_0@ == canonical_name_spec(path@, ext@),
{
    // Stage 1: strip one leading `./`.
    let start: usize = if path.len() >= 2 && path[0] == '.' && path[1] == '/' {
        2
    } else {
        0
    };
    let ghost stripped: Seq<char> = strip_leading_dot_slash(path@);
    proof {
        assert(stripped =~= path@.skip(start as int));
    }

    // Stage 2: rewrite `__` to `:`.
    let mut replaced: Vec<char> = Vec::new();
    let mut i: usize = start;
    while i < path.len()
        invariant
            start <= i <= path.len(),
            stripped == path@.skip(start as int),
            replace_dunder(stripped) == replaced@ + replace_dunder(path@.skip(i as int)),
        decreases path.len() - i,
    {
        let ghost before: Seq<char> = path@.skip(i as int);
        if i + 1 < path.len() && path[i] == '_' && path[i + 1] == '_' {
            replaced.push(':');
            proof {
                assert(before.skip(2) =~= path@.skip(i + 2));
                assert(replace_dunder(before) == seq![':'] + replace_dunder(path@.skip(i + 2)));
            }
            i = i + 2;
        } else {
            let c = path[i];
            replaced.push(c);
            proof {
                assert(before.skip(1) =~= path@.skip(i + 1));
                assert(before.len() >= 2 ==> (before[0] == path@[i as int] && before[1]
                    == path@[i + 1]));
                assert(replace_dunder(before) == seq![c] + replace_dunder(path@.skip(i + 1)));
            }
            i = i + 1;
        }
    }
    proof {
        assert(path@.skip(path@.len() as int) =~= Seq::<char>::empty());
        assert(replaced@ =~= replace_dunder(stripped));
    }

    // Stage 3: remove every `.`.
    let mut cleaned: Vec<char> = Vec::new();
    proof {
        assert(replaced@.skip(0) =~= replaced@);
        assert(cleaned@ + remove_dots(replaced@) =~= remove_dots(replaced@));
    }
    let mut j: usize = 0;
    while j < replaced.len()
        invariant
            j <= replaced.len(),
            remove_dots(replaced@) == cleaned@ + remove_dots(replaced@.skip(j as int)),
        decreases replaced.len() - j,
    {
        let ghost before: Seq<char> = replaced@.skip(j as int);
        let c = replaced[j];
        proof {
            assert(before.skip(1) =~= replaced@.skip(j + 1));
        }
        if c != '.' {
            cleaned.push(c);
            proof {
                assert(remove_dots(before) == seq![c] + remove_dots(replaced@.skip(j + 1)));
            }
        } else {
            proof {
                assert(remove_dots(before) == remove_dots(replaced@.skip(j + 1)));
            }
        }
        j = j + 1;
    }
    proof {
        assert(replaced@.skip(replaced@.len() as int) =~= Seq::<char>::empty());
        assert(cleaned@ =~= remove_dots(replaced@));
        assert(cleaned@ == processed_path(path@));
    }

    // Stage 4: the extension must be a suffix of the processed path.
    if !crate::is_candidate_file(&cleaned, ext) {
        return None;
    }

    // Stage 5: strip the suffix and prefix the local-namespace marker.
    let stem_len = cleaned.len() - ext.len();
    let mut out = local_prefix_chars();
    let mut k: usize = 0;
    while k < stem_len
        invariant
            stem_len <= cleaned.len(),
            k <= stem_len,
            out@ == local_prefix_seq() + cleaned@.take(k as int),
        decreases stem_len - k,
    {
        let c = cleaned[k];
        out.push(c);
        proof {
            assert(local_prefix_seq() + cleaned@.take(k + 1) =~= (local_prefix_seq()
                + cleaned@.take(k as int)).push(c));
        }
        k = k + 1;
    }
    proof {
        assert(out@ == canonical_name_spec(path@, ext@));
    }
    Some(out)
}

/// A prefix free of `:` passes through `replace_first_colon` unchanged.
proof fn lemma_rfc_skip_prefix(s: Seq<char>, i: int)
    requires
        0 <= i <= s.len(),
        forall|k: int| 0 <= k < i ==> s[k] != ':',
    ensures
        replace_first_colon(s) == s.take(i) + replace_first_colon(s.skip(i)),
    decreases i,
{
    if i > 0 {
        lemma_rfc_skip_prefix(s.skip(1), i - 1);
        assert(s.skip(1).skip(i - 1) =~= s.skip(i));
        assert(replace_first_colon(s) == seq![s[0]] + replace_first_colon(s.skip(1)));
        assert(seq![s[0]] + (s.skip(1).take(i - 1) + replace_first_colon(s.skip(i))) =~= s.take(i)
            + replace_first_colon(s.skip(i)));
    } else {
        assert(s.skip(0) =~= s);
        assert(s.take(0) + replace_first_colon(s) =~= replace_first_colon(s));
    }
}

/// A string free of `:` is a fixed point of `replace_first_colon`.
proof fn lemma_rfc_id(s: Seq<char>)
    requires
        forall|k: int| 0 <= k < s.len() ==> s[k] != ':',
    ensures
        replace_first_colon(s) == s,
{
    lemma_rfc_skip_prefix(s, s.len() as int);
    assert(s.skip(s.len() as int) =~= Seq::<char>::empty());
    assert(s.take(s.len() as int) + replace_first_colon(Seq::<char>::empty()) =~= s);
}

/// A string free of `__` is a fixed point of `replace_dunder`.
proof fn lemma_replace_dunder_id(s: Seq<char>)
    requires
        no_dunder(s),
    ensures
        replace_dunder(s) == s,
    decreases s.len(),
{
    if s.len() >= 1 {
        assert(s.len() >= 2 ==> !(s[0] == '_' && s[1] == '_'));
        assert forall|i: int| 0 <= i && i + 1 < s.skip(1).len() implies !(#[trigger] s.skip(1)[i]
            == '_' && s.skip(1)[i + 1] == '_') by {
            assert(s.skip(1)[i] == s[i + 1] && s.skip(1)[i + 1] == s[i + 2]);
        }
        lemma_replace_dunder_id(s.skip(1));
        assert(seq![s[0]] + s.skip(1) =~= s);
    }
}

/// A string free of `.` is a fixed point of `remove_dots`.
proof fn lemma_remove_dots_id(s: Seq<char>)
    requires
        forall|k: int| 0 <= k < s.len() ==> s[k] != '.',
    ensures
        remove_dots(s) == s,
    decreases s.len(),
{
    if s.len() >= 1 {
        lemma_remove_dots_id(s.skip(1));
        assert(seq![s[0]] + s.skip(1) =~= s);
    }
}

/// `remove_dots` distributes over concatenation.
proof fn lemma_remove_dots_concat(a: Seq<char>, b: Seq<char>)
    ensures
        remove_dots(a + b) == remove_dots(a) + remove_dots(b),
    decreases a.len(),
{
    if a.len() == 0 {
        assert(a + b =~= b);
        assert(remove_dots(a) + remove_dots(b) =~= remove_dots(b));
    } else {
        assert((a + b).skip(1) =~= a.skip(1) + b);
        assert((a + b)[0] == a[0]);
        lemma_remove_dots_concat(a.skip(1), b);
        if a[0] == '.' {
            assert(remove_dots(a + b) == remove_dots(a.skip(1)) + remove_dots(b));
        } else {
            assert(remove_dots(a + b) == seq![a[0]] + (remove_dots(a.skip(1)) + remove_dots(b)));
            assert(seq![a[0]] + (remove_dots(a.skip(1)) + remove_dots(b)) =~= (seq![a[0]]
                + remove_dots(a.skip(1))) + remove_dots(b));
        }
    }
}

/// The canonical-name transform is invertible on paths free of the reserved
/// marker substrings: for a path `./<stem>.<ext>` whose stem holds no `.`,
/// no `:` and no `__`, and whose extension holds no `.` and no `__`,
/// recovering the file path from the canonical image name gives the path
/// back exactly.
pub proof fn lemma_canonical_round_trip(stem: Seq<char>, ext: Seq<char>)
    requires
        no_dunder(stem),
        no_dunder(ext),
        forall|k: int| 0 <= k < stem.len() ==> stem[k] != '.',
        forall|k: int| 0 <= k < stem.len() ==> stem[k] != ':',
        forall|k: int| 0 <= k < ext.len() ==> ext[k] != '.',
    ensures
        ({
            let path = seq!['.', '/'] + stem + seq!['.'] + ext;
            &&& crate::is_suffix_of(ext, processed_path(path))
            &&& is_local_name(canonical_name_spec(path, ext))
            &&& local_path_spec(canonical_name_spec(path, ext), ext) == path
        }),
{
    let path = seq!['.', '/'] + stem + seq!['.'] + ext;
    let tail = stem + seq!['.'] + ext;
    assert(path[0] == '.' && path[1] == '/');
    assert(strip_leading_dot_slash(path) =~= tail);

    // `__` never spans the pieces, because `.` is not `_`.
    assert forall|i: int| 0 <= i && i + 1 < tail.len() implies !(#[trigger] tail[i] == '_'
        && tail[i + 1] == '_') by {
        if i + 1 < stem.len() {
            assert(tail[i] == stem[i] && tail[i + 1] == stem[i + 1]);
        } else if i < stem.len() {
            assert(tail[i + 1] == '.');
        } else if i == stem.len() {
            assert(tail[i] == '.');
        } else {
            assert(tail[i] == ext[i - stem.len() - 1] && tail[i + 1] == ext[i - stem.len()]);
        }
    }
    lemma_replace_dunder_id(tail);

    // Removing dots turns `<stem>.<ext>` into `<stem><ext>`.
    let dot_ext = seq!['.'] + ext;
    assert(tail =~= stem + dot_ext);
    lemma_remove_dots_concat(stem, dot_ext);
    lemma_remove_dots_id(stem);
    assert(dot_ext[0] == '.');
    assert(dot_ext.skip(1) =~= ext);
    lemma_remove_dots_id(ext);
    assert(remove_dots(dot_ext) == ext);
    assert(processed_path(path) == stem + ext);

    // The extension is a suffix, and stripping it leaves the stem.
    assert((stem + ext).skip(stem.len() as int) =~= ext);
    assert(crate::is_suffix_of(ext, processed_path(path)));
    let canonical = canonical_name_spec(path, ext);
    assert((stem + ext).take(stem.len() as int) =~= stem);
    assert(canonical == local_prefix_seq() + stem);

    // The canonical name carries the local marker.
    assert(canonical.take(localhost_seq().len() as int) =~= localhost_seq());
    assert(is_local_name(canonical));

    // Inversion: no `:` anywhere in the canonical name.
    assert forall|k: int| 0 <= k < canonical.len() implies #[trigger] canonical[k] != ':' by {
        if k < local_prefix_seq().len() {
            assert(canonical[k] == local_prefix_seq()[k]);
        } else {
            assert(canonical[k] == stem[k - local_prefix_seq().len()]);
        }
    }
    lemma_rfc_id(canonical);
    assert(canonical.skip(localhost_seq().len() as int) =~= seq!['/'] + stem);
    assert(local_path_spec(canonical, ext) =~= path);
}

/// Recovers the build-file path for a queued local image: the first `:`
/// becomes `__`, the `localhost` marker becomes `.`, and the extension is
/// appended after a dot.
pub fn local_file_path(image: &Vec<char>, ext: &Vec<char>) -> (r: Vec<char>)
    requires
        is_local_name(image@),
    ensures
        r@ == local_path_spec(image@, ext@),
{
    let marker_len: usize = 9;
    proof {
        assert(localhost_seq().len() == 9);
    }
    let ghost body: Seq<char> = image@.skip(9);
    proof {
        // The marker itself holds no `:`, so the first colon lies in the body.
        assert forall|k: int| 0 <= k < 9 implies #[trigger] image@[k] != ':' by {
            assert(image@.take(9)[k] == image@[k]);
            assert(localhost_seq()[k] != ':');
        }
        lemma_rfc_skip_prefix(image@, 9);
        assert(image@.take(9) == localhost_seq());
    }
    let mut out: Vec<char> = vec!['.'];
    let mut seen: bool = false;
    let mut i: usize = marker_len;
    while i < image.len()
        invariant
            9 <= i <= image@.len(),
            body == image@.skip(9),
            !seen ==> out@ == seq!['.'] + image@.subrange(9, i as int),
            !seen ==> forall|k: int| 9 <= k < i ==> image@[k] != ':',
            seen ==> seq!['.'] + replace_first_colon(body) == out@ + image@.skip(i as int),
        decreases image.len() - i,
    {
        let c = image[i];
        if !seen && c == ':' {
            out.push('_');
            out.push('_');
            seen = true;
            proof {
                assert forall|k: int| 0 <= k < i - 9 implies #[trigger] body[k] != ':' by {
                    assert(body[k] == image@[9 + k]);
                }
                lemma_rfc_skip_prefix(body, i - 9);
                assert(body.skip(i - 9) =~= image@.skip(i as int));
                assert(image@.skip(i as int)[0] == ':');
                assert(replace_first_colon(image@.skip(i as int)) == seq!['_', '_']
                    + image@.skip(i + 1));
                assert(body.take(i - 9) =~= image@.subrange(9, i as int));
                assert(seq!['.'] + replace_first_colon(body) =~= out@ + image@.skip(i + 1));
            }
        } else {
            out.push(c);
            proof {
                if seen {
                    assert(image@.skip(i as int) =~= seq![c] + image@.skip(i + 1));
                    assert(out@ + image@.skip(i + 1) =~= (out@.drop_last() + image@.skip(i as int)));
                    assert(seq!['.'] + replace_first_colon(body) == out@ + image@.skip(i + 1));
                } else {
                    assert(seq!['.'] + image@.subrange(9, i + 1) =~= (seq!['.'] + image@.subrange(
                        9,
                        i as int,
                    )).push(c));
                }
            }
        }
        i = i + 1;
    }
    proof {
        if seen {
            assert(image@.skip(image@.len() as int) =~= Seq::<char>::empty());
            assert(out@ =~= seq!['.'] + replace_first_colon(body));
        } else {
            assert forall|k: int| 0 <= k < body.len() implies #[trigger] body[k] != ':' by {
                assert(body[k] == image@[9 + k]);
            }
            lemma_rfc_id(body);
            assert(image@.subrange(9, image@.len() as int) =~= body);
        }
        assert(out@ == seq!['.'] + replace_first_colon(body));
        assert(replace_first_colon(image@) == image@.take(9) + replace_first_colon(body));
        assert(replace_first_colon(image@).skip(9) =~= replace_first_colon(body));
    }
    out.push('.');
    let mut m: usize = 0;
    while m < ext.len()
        invariant
            m <= ext.len(),
            out@ == seq!['.'] + replace_first_colon(image@).skip(9) + seq!['.'] + ext@.take(
                m as int,
            ),
        decreases ext.len() - m,
    {
        let c = ext[m];
        out.push(c);
        proof {
            assert(seq!['.'] + replace_first_colon(image@).skip(9) + seq!['.'] + ext@.take(m + 1)
                =~= (seq!['.'] + replace_first_colon(image@).skip(9) + seq!['.'] + ext@.take(
                m as int,
            )).push(c));
        }
        m = m + 1;
    }
    proof {
        assert(ext@.take(ext@.len() as int) =~= ext@);
        assert(out@ == local_path_spec(image@, ext@));
    }
    out
}

} // verus!
