//! Command composition for the external container engine.
//!
//! The executor walks the build queue and composes one engine invocation per
//! step: a `build` (and, with a registry configured, a `tag`) for each local
//! image, a `pull` for each external one.  Argument order matters to the
//! engine and is pinned by the specs below.  Composition is pure: dry-run
//! printing and real execution both consume the same composed invocations,
//! so the printed command line of a step is exactly the command the real
//! mode would spawn.

use crate::names::{is_local_name, local_path_spec, localhost_seq};
use vstd::prelude::*;

verus! {

/// One command for the engine: the program to spawn and its arguments.
#[derive(Debug)]
pub struct Invocation {
    pub program: Vec<char>,
    pub args: Vec<Vec<char>>,
}

impl DeepView for Invocation {
    type V = (Seq<char>, Seq<Seq<char>>);

    open spec fn deep_view(&self) -> Self::V {
        (self.program.deep_view(), self.args.deep_view())
    }
}

/// What composition needs of the configuration: the engine client, the
/// build-file extension, and the optional remote registry destination.
#[derive(Debug)]
pub struct PlanConfig {
    pub client: Vec<char>,
    pub extension: Vec<char>,
    pub registry: Option<Vec<char>>,
}

/// The engine variant that needs the image-format compatibility flag.
pub open spec fn podman_word() -> Seq<char> {
    seq!['p', 'o', 'd', 'm', 'a', 'n']
}

/// The remote-qualified name: the `localhost` marker replaced by the
/// configured registry host.
pub open spec fn remote_name_spec(image: Seq<char>, registry: Seq<char>) -> Seq<char> {
    registry + image.skip(localhost_seq().len() as int)
}

/// The arguments of a local build:
/// `build --file <path> --tag <image> [--format docker] <context>`.
pub open spec fn build_args_spec(image: Seq<char>, ext: Seq<char>, compat: bool) -> Seq<
    Seq<char>,
> {
    let head = seq![
        seq!['b', 'u', 'i', 'l', 'd'],
        seq!['-', '-', 'f', 'i', 'l', 'e'],
        local_path_spec(image, ext),
        seq!['-', '-', 't', 'a', 'g'],
        image,
    ];
    let fmt = if compat {
        seq![seq!['-', '-', 'f', 'o', 'r', 'm', 'a', 't'], seq!['d', 'o', 'c', 'k', 'e', 'r']]
    } else {
        Seq::empty()
    };
    head + fmt + seq![seq!['.']]
}

/// The arguments of a tag step: `tag <image> <remote-qualified-name>`.
pub open spec fn tag_args_spec(image: Seq<char>, registry: Seq<char>) -> Seq<Seq<char>> {
    seq![seq!['t', 'a', 'g'], image, remote_name_spec(image, registry)]
}

/// The arguments of a pull step: `pull <image>`.
pub open spec fn pull_args_spec(image: Seq<char>) -> Seq<Seq<char>> {
    seq![seq!['p', 'u', 'l', 'l'], image]
}

/// The invocations composed for one queued image: local images are built
/// (and tagged for the registry when one is configured), external images
/// are pulled.
pub open spec fn invocations_for(
    image: Seq<char>,
    client: Seq<char>,
    ext: Seq<char>,
    registry: Option<Seq<char>>,
) -> Seq<(Seq<char>, Seq<Seq<char>>)> {
    if is_local_name(image) {
        let build = seq![(client, build_args_spec(image, ext, client == podman_word()))];
        if registry is Some {
            build + seq![(client, tag_args_spec(image, registry->Some_0))]
        } else {
            build
        }
    } else {
        seq![(client, pull_args_spec(image))]
    }
}

/// The invocations for a whole queue, in queue order.
pub open spec fn plan_invocations(
    queue: Seq<Seq<char>>,
    client: Seq<char>,
    ext: Seq<char>,
    registry: Option<Seq<char>>,
) -> Seq<(Seq<char>, Seq<Seq<char>>)>
    decreases queue.len(),
{
    if queue.len() == 0 {
        Seq::empty()
    } else {
        plan_invocations(queue.drop_last(), client, ext, registry) + invocations_for(
            queue.last(),
            client,
            ext,
            registry,
        )
    }
}

/// The arguments joined by single spaces.
pub open spec fn join_spaces(args: Seq<Seq<char>>) -> Seq<char>
    decreases args.len(),
{
    if args.len() == 0 {
        Seq::empty()
    } else if args.len() == 1 {
        args[0]
    } else {
        join_spaces(args.drop_last()) + seq![' '] + args.last()
    }
}

/// The printed form of an invocation: program, a space, the joined
/// arguments.  Dry-run mode prints exactly this line for each invocation.
pub open spec fn render_spec(inv: (Seq<char>, Seq<Seq<char>>)) -> Seq<char> {
    inv.0 + seq![' '] + join_spaces(inv.1)
}

/// Composes the engine invocations for one queued image.
pub fn compose_image_invocations(image: &Vec<char>, config: &PlanConfig) -> (r: Vec<Invocation>)
    ensures
        r.deep_view() == invocations_for(
            image@,
            config.client@,
            config.extension@,
            config.registry.deep_view(),
        ),
{
    let mut out: Vec<Invocation> = Vec::new();
    if crate::names::image_is_local(image) {
        let path = crate::names::local_file_path(image, &config.extension);
        let mut args: Vec<Vec<char>> = Vec::new();
        args.push(vec!['b', 'u', 'i', 'l', 'd']);
        args.push(vec!['-', '-', 'f', 'i', 'l', 'e']);
        args.push(path);
        args.push(vec!['-', '-', 't', 'a', 'g']);
        args.push(crate::clone_chars(image));
        let podman: Vec<char> = vec!['p', 'o', 'd', 'm', 'a', 'n'];
        proof {
            assert(podman@ =~= podman_word());
        }
        let compat = crate::chars_eq(&config.client, &podman);
        if compat {
            args.push(vec!['-', '-', 'f', 'o', 'r', 'm', 'a', 't']);
            args.push(vec!['d', 'o', 'c', 'k', 'e', 'r']);
        }
        args.push(vec!['.']);
        proof {
            assert(args.deep_view() =~~= build_args_spec(
                image@,
                config.extension@,
                config.client@ == podman_word(),
            ));
        }
        out.push(Invocation { program: crate::clone_chars(&config.client), args });
        match &config.registry {
            Some(registry) => {
                let mut remote = crate::clone_chars(registry);
                let mut i: usize = 9;
                proof {
                    assert(localhost_seq().len() == 9);
                    assert(remote@ == registry@ + image@.subrange(9, 9));
                }
                while i < image.len()
                    invariant
                        9 <= i <= image@.len(),
                        remote@ == registry@ + image@.subrange(9, i as int),
                    decreases image.len() - i,
                {
                    let c = image[i];
                    remote.push(c);
                    proof {
                        assert(registry@ + image@.subrange(9, i + 1) =~= (registry@
                            + image@.subrange(9, i as int)).push(c));
                    }
                    i = i + 1;
                }
                proof {
                    assert(image@.subrange(9, image@.len() as int) =~= image@.skip(9));
                    assert(remote@ == remote_name_spec(image@, registry@));
                }
                let mut targs: Vec<Vec<char>> = Vec::new();
                targs.push(vec!['t', 'a', 'g']);
                targs.push(crate::clone_chars(image));
                targs.push(remote);
                proof {
                    assert(targs.deep_view() =~~= tag_args_spec(image@, registry@));
                }
                out.push(Invocation { program: crate::clone_chars(&config.client), args: targs });
                proof {
                    assert(config.registry.deep_view() is Some);
                    assert(config.registry.deep_view()->Some_0 == registry@);
                    assert(out.deep_view() =~~= invocations_for(
                        image@,
                        config.client@,
                        config.extension@,
                        config.registry.deep_view(),
                    ));
                }
            },
            None => {
                proof {
                    assert(config.registry.deep_view() is None);
                    assert(out.deep_view() =~~= invocations_for(
                        image@,
                        config.client@,
                        config.extension@,
                        config.registry.deep_view(),
                    ));
                }
            },
        }
    } else {
        let mut args: Vec<Vec<char>> = Vec::new();
        args.push(vec!['p', 'u', 'l', 'l']);
        args.push(crate::clone_chars(image));
        proof {
            assert(args.deep_view() =~~= pull_args_spec(image@));
        }
        out.push(Invocation { program: crate::clone_chars(&config.client), args });
        proof {
            assert(out.deep_view() =~~= invocations_for(
                image@,
                config.client@,
                config.extension@,
                config.registry.deep_view(),
            ));
        }
    }
    out
}

/// Composes the whole plan: the invocations for every queued image, in
/// queue order.
pub fn compose_plan(queue: &Vec<Vec<char>>, config: &PlanConfig) -> (r: Vec<Invocation>)
    ensures
        r.deep_view() == plan_invocations(
            queue.deep_view(),
            config.client@,
            config.extension@,
            config.registry.deep_view(),
        ),
{
    let ghost qv = queue.deep_view();
    let ghost cl = config.client@;
    let ghost ex = config.extension@;
    let ghost rg = config.registry.deep_view();
    let mut out: Vec<Invocation> = Vec::new();
    proof {
        assert(qv.take(0) =~= Seq::<Seq<char>>::empty());
        assert(out.deep_view() =~~= plan_invocations(qv.take(0), cl, ex, rg));
    }
    let mut i: usize = 0;
    #[verifier::loop_isolation(false)]
    while i < queue.len()
        invariant
            i <= queue@.len(),
            out.deep_view() == plan_invocations(qv.take(i as int), cl, ex, rg),
        decreases queue.len() - i,
    {
        let ghost prev = out.deep_view();
        proof {
            assert(qv.take(i + 1).drop_last() =~= qv.take(i as int));
            assert(qv.take(i + 1).last() == qv[i as int]);
            assert(queue@[i as int]@ =~= qv[i as int]);
        }
        let mut step = compose_image_invocations(&queue[i], config);
        let ghost sv = step.deep_view();
        out.append(&mut step);
        proof {
            assert(out.deep_view() =~~= prev + sv);
            assert(out.deep_view() =~~= plan_invocations(qv.take(i + 1), cl, ex, rg));
        }
        i = i + 1;
    }
    proof {
        assert(qv.take(qv.len() as int) =~= qv);
    }
    out
}

/// The printed command line of one invocation, as dry-run mode shows it:
/// program and arguments joined by single spaces.
pub fn render_invocation(inv: &Invocation) -> (r: Vec<char>)
    ensures
        r@ == render_spec(inv.deep_view()),
{
    let ghost av = inv.args.deep_view();
    let mut r = crate::clone_chars(&inv.program);
    r.push(' ');
    proof {
        assert(inv.program@ =~= inv.program.deep_view());
        assert(av.take(0) =~= Seq::<Seq<char>>::empty());
        assert(r@ =~= inv.program.deep_view() + seq![' '] + join_spaces(av.take(0)));
    }
    let mut i: usize = 0;
    #[verifier::loop_isolation(false)]
    while i < inv.args.len()
        invariant
            i <= inv.args@.len(),
            i == 0 ==> r@ == inv.program.deep_view() + seq![' '],
            i > 0 ==> r@ == inv.program.deep_view() + seq![' '] + join_spaces(av.take(i as int)),
        decreases inv.args.len() - i,
    {
        let ghost prev = r@;
        proof {
            assert(av.take(i + 1).drop_last() =~= av.take(i as int));
            assert(av.take(i + 1).last() == av[i as int]);
            assert(inv.args@[i as int]@ =~= av[i as int]);
        }
        if i > 0 {
            r.push(' ');
        }
        let word = &inv.args[i];
        let mut k: usize = 0;
        let ghost base = r@;
        while k < word.len()
            invariant
                k <= word@.len(),
                r@ == base + word@.take(k as int),
            decreases word.len() - k,
        {
            let c = word[k];
            r.push(c);
            proof {
                assert(base + word@.take(k + 1) =~= (base + word@.take(k as int)).push(c));
            }
            k = k + 1;
        }
        proof {
            assert(word@.take(word@.len() as int) =~= word@);
            assert(r@ == base + av[i as int]);
            if i == 0 {
                assert(join_spaces(av.take(1)) == av[0]) by {
                    assert(av.take(1).len() == 1);
                    assert(av.take(1)[0] == av[0]);
                }
                assert(r@ =~= inv.program.deep_view() + seq![' '] + join_spaces(av.take(1)));
            } else {
                assert(av.take(i + 1).len() >= 2);
                assert(join_spaces(av.take(i + 1)) == join_spaces(av.take(i as int)) + seq![' ']
                    + av[i as int]);
                assert(r@ =~= inv.program.deep_view() + seq![' '] + join_spaces(av.take(i + 1)));
            }
        }
        i = i + 1;
    }
    proof {
        assert(av.take(av.len() as int) =~= av);
        if inv.args@.len() == 0 {
            assert(join_spaces(av) == Seq::<char>::empty());
            assert(r@ =~= inv.program.deep_view() + seq![' '] + join_spaces(av));
        }
        assert(r@ == render_spec(inv.deep_view()));
    }
    r
}

} // verus!
