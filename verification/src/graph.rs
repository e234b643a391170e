//! The dependency graph.
//!
//! Each scanned file that declares at least one base image becomes one graph
//! entry: its canonical image name mapped to the ordered list of its direct
//! base images.  Two files producing the same image name is a configuration
//! conflict and is rejected rather than silently merged.

use vstd::prelude::*;

verus! {

/// One locally producible image with its direct base-image dependencies,
/// in declaration order.  Each entry stands for the dependency edges from
/// `image` to every member of `deps`.
#[derive(Debug)]
pub struct GraphEntry {
    pub image: Vec<char>,
    pub deps: Vec<Vec<char>>,
}

impl DeepView for GraphEntry {
    type V = (Seq<char>, Seq<Seq<char>>);

    open spec fn deep_view(&self) -> Self::V {
        (self.image.deep_view(), self.deps.deep_view())
    }
}

/// The dependency graph: entries with pairwise distinct image names.
#[derive(Debug)]
pub struct DepGraph {
    pub entries: Vec<GraphEntry>,
}

/// No two entries share an image name.
pub open spec fn distinct_keys(g: Seq<(Seq<char>, Seq<Seq<char>>)>) -> bool {
    forall|i: int, j: int| 0 <= i < j < g.len() ==> (#[trigger] g[i]).0 != (#[trigger] g[j]).0
}

/// The entries that declare at least one base, in input order: only those
/// files take part in dependency resolution.
pub open spec fn graph_of_files(files: Seq<(Seq<char>, Seq<Seq<char>>)>) -> Seq<
    (Seq<char>, Seq<Seq<char>>),
>
    decreases files.len(),
{
    if files.len() == 0 {
        Seq::empty()
    } else {
        let rest = graph_of_files(files.drop_last());
        if files.last().1.len() > 0 {
            rest.push(files.last())
        } else {
            rest
        }
    }
}

/// `name` is produced locally: it is the image of some graph entry.
pub open spec fn is_graph_key(g: Seq<(Seq<char>, Seq<Seq<char>>)>, name: Seq<char>) -> bool {
    exists|i: int| 0 <= i < g.len() && (#[trigger] g[i]).0 == name
}

/// Two files map to the same image name; the conflicting name is reported.
#[derive(Debug)]
pub struct ImageConflict {
    pub image: Vec<char>,
}

/// The part of the graph built from a prefix of the files is a prefix of the
/// whole graph.
proof fn lemma_graph_prefix(files: Seq<(Seq<char>, Seq<Seq<char>>)>, i: int)
    requires
        0 <= i <= files.len(),
    ensures
        graph_of_files(files.take(i)).len() <= graph_of_files(files).len(),
        forall|k: int|
            0 <= k < graph_of_files(files.take(i)).len() ==> #[trigger] graph_of_files(files)[k]
                == graph_of_files(files.take(i))[k],
    decreases files.len() - i,
{
    if i == files.len() {
        assert(files.take(i) =~= files);
    } else {
        lemma_graph_prefix(files, i + 1);
        assert(files.take(i + 1).drop_last() =~= files.take(i));
        assert(files.take(i + 1).last() == files[i]);
    }
}

/// Whether a name is the image of one of the entries.
pub fn entries_have_key(entries: &Vec<GraphEntry>, name: &Vec<char>) -> (r: bool)
    ensures
        r == is_graph_key(entries.deep_view(), name@),
{
    let mut i: usize = 0;
    while i < entries.len()
        invariant
            i <= entries@.len(),
            forall|k: int| 0 <= k < i ==> (#[trigger] entries.deep_view()[k]).0 != name@,
        decreases entries.len() - i,
    {
        proof {
            assert(entries@[i as int].image@ =~= entries@[i as int].image.deep_view());
            assert(entries.deep_view()[i as int] == entries@[i as int].deep_view());
        }
        if crate::chars_eq(&entries[i].image, name) {
            return true;
        }
        i = i + 1;
    }
    proof {
        assert(entries.deep_view().len() == entries@.len());
    }
    false
}

/// Groups the per-file dependency lists into the graph.  Files that declare
/// no base take no part.  Building succeeds exactly when no two
/// participating files map to the same image name; otherwise the conflicting
/// name is reported, as the configuration is ambiguous.
pub fn build_graph(files: Vec<GraphEntry>) -> (r: Result<DepGraph, ImageConflict>)
    ensures
        r is Ok <==> distinct_keys(graph_of_files(files.deep_view())),
        r matches Ok(g) ==> g.entries.deep_view() == graph_of_files(files.deep_view()),
        r matches Err(e) ==> is_graph_key(graph_of_files(files.deep_view()), e.image@),
{
    let ghost fv = files.deep_view();
    let mut entries: Vec<GraphEntry> = Vec::new();
    proof {
        assert(fv.take(0) =~= Seq::<(Seq<char>, Seq<Seq<char>>)>::empty());
        assert(entries.deep_view() =~~= graph_of_files(fv.take(0)));
    }
    let mut i: usize = 0;
    let files_len = files.len();
    // Entries are reversed so each can be taken from the back by `pop`,
    // moving ownership without clones.
    let mut forward = files;
    let mut rest: Vec<GraphEntry> = Vec::new();
    while forward.len() > 0
        invariant
            forward@.len() + rest@.len() == fv.len(),
            forall|k: int| 0 <= k < forward@.len() ==> #[trigger] forward@[k].deep_view() == fv[k],
            forall|k: int|
                0 <= k < rest@.len() ==> #[trigger] rest@[k].deep_view() == fv[fv.len() - 1 - k],
        decreases forward.len(),
    {
        let e = forward.pop().unwrap();
        rest.push(e);
    }
    #[verifier::loop_isolation(false)]
    while i < files_len
        invariant
            fv.len() == files_len,
            rest@.len() == files_len - i,
            forall|k: int|
                0 <= k < rest@.len() ==> #[trigger] rest@[k].deep_view() == fv[fv.len() - 1 - k],
            i <= files_len,
            entries.deep_view() == graph_of_files(fv.take(i as int)),
            distinct_keys(entries.deep_view()),
        decreases files_len - i,
    {
        let ghost prev = entries.deep_view();
        proof {
            assert(fv.take(i + 1).drop_last() =~= fv.take(i as int));
            assert(fv.take(i + 1).last() == fv[i as int]);
            assert(rest@[rest@.len() - 1].deep_view() == fv[i as int]);
        }
        let entry = rest.pop().unwrap();
        if entry.deps.len() > 0 {
            if entries_have_key(&entries, &entry.image) {
                proof {
                    assert(entry.deep_view() == fv[i as int]);
                    assert(entry.image@ =~= entry.image.deep_view());
                    let gpart = graph_of_files(fv.take(i + 1));
                    assert(gpart == prev.push(fv[i as int]));
                    let w = choose|t: int|
                        0 <= t < prev.len() && (#[trigger] prev[t]).0 == entry.image@;
                    assert(gpart[w] == prev[w]);
                    assert(gpart[gpart.len() - 1].0 == entry.image@);
                    lemma_graph_prefix(fv, i + 1);
                    assert(graph_of_files(fv)[w] == gpart[w]);
                    assert(graph_of_files(fv)[gpart.len() - 1] == gpart[gpart.len() - 1]);
                    assert(is_graph_key(graph_of_files(fv), entry.image@));
                    assert(!distinct_keys(graph_of_files(fv)));
                }
                return Err(ImageConflict { image: entry.image });
            }
            proof {
                assert(entry.image@ =~= entry.image.deep_view());
                assert(!is_graph_key(prev, entry.image.deep_view()));
            }
            let ghost ev = entry.deep_view();
            entries.push(entry);
            proof {
                assert(entries.deep_view() =~~= prev.push(ev));
                assert(entries.deep_view() =~~= graph_of_files(fv.take(i + 1)));
                assert forall|a: int, b: int|
                    0 <= a < b < entries.deep_view().len() implies (#[trigger] entries.deep_view()[a]).0
                    != (#[trigger] entries.deep_view()[b]).0 by {
                    if b == entries.deep_view().len() - 1 {
                        assert(entries.deep_view()[a] == prev[a]);
                        assert(!is_graph_key(prev, ev.0));
                    } else {
                        assert(entries.deep_view()[a] == prev[a]);
                        assert(entries.deep_view()[b] == prev[b]);
                    }
                }
            }
        } else {
            proof {
                assert(entries.deep_view() =~~= graph_of_files(fv.take(i + 1)));
            }
        }
        i = i + 1;
    }
    proof {
        assert(fv.take(fv.len() as int) =~= fv);
    }
    Ok(DepGraph { entries })
}

} // verus!
