//! The whole run, from scanned files to composed plan.
//!
//! Given the scanned build-definition files (path and contents, read by the
//! caller), the pipeline derives each file's canonical image name, extracts
//! its base-image declarations, groups them into the dependency graph,
//! resolves the graph into a build queue, and composes the engine
//! invocations.  Malformed input is fatal, as the run treats its input
//! files as a correctness precondition; an unresolvable graph is not: the
//! stuck images are reported and the rest of the plan stands.

use crate::edges::{file_bases, file_malformed};
use crate::executor::{plan_invocations, Invocation, PlanConfig};
use crate::graph::{distinct_keys, graph_of_files, is_graph_key, GraphEntry};
use crate::names::{canonical_name_spec, processed_path};
use crate::planner::{
    deps_precede, distinct_names, externals_first, is_external, reported_unresolved,
    stuck_matches, StuckImage,
};
use vstd::prelude::*;

verus! {

/// One scanned build-definition file: its path and its contents.
#[derive(Debug)]
pub struct SourceFile {
    pub path: Vec<char>,
    pub contents: Vec<char>,
}

impl DeepView for SourceFile {
    type V = (Seq<char>, Seq<char>);

    open spec fn deep_view(&self) -> Self::V {
        (self.path.deep_view(), self.contents.deep_view())
    }
}

/// Why a run was aborted: structurally bad input.
#[derive(Debug)]
pub enum PlanError {
    /// The configured extension is not a suffix of the file's processed
    /// path, so no canonical image name exists for it.
    BadExtension { file: usize },
    /// A base-image declaration line with no second token.
    MalformedDeclaration { file: usize, line: usize },
    /// Two files map to the same canonical image name.
    DuplicateImage { image: Vec<char> },
}

/// Everything the run produces: the build order, the images that could not
/// be resolved, and the composed engine invocations in execution order.
#[derive(Debug)]
pub struct BuildPlan {
    pub queue: Vec<Vec<char>>,
    pub unresolved: Vec<StuckImage>,
    pub invocations: Vec<Invocation>,
}

/// A file is well-formed when its name yields a canonical image name and no
/// declaration line is malformed.
pub open spec fn file_wf(f: (Seq<char>, Seq<char>), ext: Seq<char>) -> bool {
    crate::is_suffix_of(ext, processed_path(f.0)) && !file_malformed(f.1)
}

/// The graph entry a file contributes: its canonical image name and its
/// declared bases.
pub open spec fn file_entry(f: (Seq<char>, Seq<char>), ext: Seq<char>) -> (
    Seq<char>,
    Seq<Seq<char>>,
) {
    (canonical_name_spec(f.0, ext), file_bases(f.1))
}

/// The per-file entries, in scan order.
pub open spec fn file_entries(fv: Seq<(Seq<char>, Seq<char>)>, ext: Seq<char>) -> Seq<
    (Seq<char>, Seq<Seq<char>>),
>
    decreases fv.len(),
{
    if fv.len() == 0 {
        Seq::empty()
    } else {
        file_entries(fv.drop_last(), ext).push(file_entry(fv.last(), ext))
    }
}

/// The dependency graph of a scan: the entries of the files that declare at
/// least one base.
pub open spec fn scan_graph(fv: Seq<(Seq<char>, Seq<char>)>, ext: Seq<char>) -> Seq<
    (Seq<char>, Seq<Seq<char>>),
> {
    graph_of_files(file_entries(fv, ext))
}

/// Runs the whole pipeline on the scanned files.
///
/// Planning succeeds exactly when every file is well-formed and no two
/// participating files share an image name.  The plan's queue then carries
/// the planner's guarantees for the scan's graph, and the invocations are
/// the composition of the queue under the configuration.
pub fn make_plan(files: &Vec<SourceFile>, config: &PlanConfig, round_budget: u8) -> (r: Result<
    BuildPlan,
    PlanError,
>)
    ensures
        ({
            let fv = files.deep_view();
            let ext = config.extension@;
            r is Ok <==> (forall|i: int| 0 <= i < fv.len() ==> file_wf(#[trigger] fv[i], ext))
                && distinct_keys(scan_graph(fv, ext))
        }),
        ({
            let fv = files.deep_view();
            let ext = config.extension@;
            let gr = scan_graph(fv, ext);
            r matches Ok(p) ==> {
                let q = p.queue.deep_view();
                let u = p.unresolved.deep_view();
                &&& distinct_names(q)
                &&& forall|i: int|
                    0 <= i < q.len() ==> is_external(gr, #[trigger] q[i]) || is_graph_key(gr, q[i])
                &&& forall|n: Seq<char>| #[trigger] is_external(gr, n) ==> q.contains(n)
                &&& deps_precede(gr, q)
                &&& externals_first(gr, q)
                &&& forall|t: int|
                    0 <= t < u.len() ==> stuck_matches(gr, q, #[trigger] u[t]) && !q.contains(
                        u[t].0,
                    )
                &&& forall|k: int|
                    0 <= k < gr.len() && !q.contains((#[trigger] gr[k]).0) ==> reported_unresolved(
                        u,
                        gr[k].0,
                    )
                &&& p.invocations.deep_view() == plan_invocations(
                    q,
                    config.client@,
                    ext,
                    config.registry.deep_view(),
                )
            }
        }),
        ({
            let fv = files.deep_view();
            let ext = config.extension@;
            match r {
                Ok(_) => true,
                Err(PlanError::BadExtension { file }) => file < fv.len() && !crate::is_suffix_of(
                    ext,
                    processed_path(fv[file as int].0),
                ),
                Err(PlanError::MalformedDeclaration { file, line }) => file < fv.len()
                    && file_malformed(fv[file as int].1),
                Err(PlanError::DuplicateImage { image }) => !distinct_keys(scan_graph(fv, ext))
                    && is_graph_key(scan_graph(fv, ext), image@),
            }
        }),
{
    let ghost fv = files.deep_view();
    let ghost ext = config.extension@;
    let mut entries: Vec<GraphEntry> = Vec::new();
    proof {
        assert(fv.take(0) =~= Seq::<(Seq<char>, Seq<char>)>::empty());
        assert(entries.deep_view() =~~= file_entries(fv.take(0), ext));
    }
    let mut i: usize = 0;
    #[verifier::loop_isolation(false)]
    while i < files.len()
        invariant
            i <= fv.len(),
            entries.deep_view() == file_entries(fv.take(i as int), ext),
            forall|k: int| 0 <= k < i ==> file_wf(#[trigger] fv[k], ext),
        decreases files.len() - i,
    {
        let ghost prev = entries.deep_view();
        proof {
            assert(fv.take(i + 1).drop_last() =~= fv.take(i as int));
            assert(fv.take(i + 1).last() == fv[i as int]);
            assert(files@[i as int].path@ =~= fv[i as int].0);
            assert(files@[i as int].contents@ =~= fv[i as int].1);
        }
        let image = match crate::names::canonical_image_name(&files[i].path, &config.extension) {
            Some(image) => image,
            None => {
                return Err(PlanError::BadExtension { file: i });
            },
        };
        let deps = match crate::edges::extract_bases(&files[i].contents) {
            Ok(deps) => deps,
            Err(e) => {
                return Err(PlanError::MalformedDeclaration { file: i, line: e.line });
            },
        };
        let entry = GraphEntry { image, deps };
        proof {
            assert(entry.deep_view() =~~= file_entry(fv[i as int], ext));
        }
        entries.push(entry);
        proof {
            assert(entries.deep_view() =~~= prev.push(file_entry(fv[i as int], ext)));
            assert(entries.deep_view() =~~= file_entries(fv.take(i + 1), ext));
        }
        i = i + 1;
    }
    proof {
        assert(fv.take(fv.len() as int) =~= fv);
        assert(entries.deep_view() == file_entries(fv, ext));
    }
    let graph = match crate::graph::build_graph(entries) {
        Ok(graph) => graph,
        Err(e) => {
            return Err(PlanError::DuplicateImage { image: e.image });
        },
    };
    let plan = crate::planner::plan_build_queue(&graph, round_budget);
    let invocations = crate::executor::compose_plan(&plan.queue, config);
    Ok(BuildPlan { queue: plan.queue, unresolved: plan.unresolved, invocations })
}

} // verus!
