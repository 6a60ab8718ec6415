//! The render graphs that a renderer executes.

use vstd::prelude::*;
use crate::registry::{inserted, sorted, Registry};
use crate::rendering::render_graph::{Arg, RenderGraph};

verus! {

/// The arguments of a render graph, gathered under their names: where a name
/// occurs twice, the later argument stands.
pub open spec fn gathered(args: Seq<(String, Arg)>) -> Seq<(Seq<char>, Arg)>
    decreases args.len(),
{
    if args.len() == 0 {
        seq![]
    } else {
        inserted(gathered(args.drop_last()), args.last().0@, args.last().1)
    }
}

/// An instance of [RenderGraph] and its arguments
pub struct RenderGraphEntry<O> {
    /// The graph
    pub graph: RenderGraph<O>,
    /// The arguments with which the graph is executed
    pub args: Registry<Arg>,
}

/// Renderer
pub struct Renderer<O> {
    entries: Registry<RenderGraphEntry<O>>,
}

impl<O> Renderer<O> {
    /// The render graphs with their arguments, in the order of their names,
    /// in which they are executed.
    pub closed spec fn entries(&self) -> Seq<(Seq<char>, RenderGraphEntry<O>)> {
        self.entries@
    }

    /// The render graphs are sorted by name.
    pub open spec fn wf(&self) -> bool {
        sorted(self.entries())
    }

    /// Creates new instance of [Renderer], without render graphs
    pub fn new() -> (renderer: Renderer<O>)
        ensures
            renderer.wf(),
            renderer.entries().len() == 0,
    {
        Renderer { entries: Registry::new() }
    }

    /// Adds [RenderGraph]; one of the same name is replaced
    pub fn add_graph(&mut self, name: &str, graph: RenderGraph<O>, args: Vec<(String, Arg)>)
        requires
            old(self).wf(),
        ensures
            final(self).wf(),
            exists|entry: RenderGraphEntry<O>|
                {
                    &&& entry.graph == graph
                    &&& entry.args@ == gathered(args@)
                    &&& #[trigger] inserted(old(self).entries(), name@, entry)
                        == final(self).entries()
                },
    {
        let mut gathering: Registry<Arg> = Registry::new();
        let ghost all = args@;
        assert(all.take(0) =~= Seq::<(String, Arg)>::empty());
        for pair in it: args
            invariant
                it.seq() == all,
                gathering.wf(),
                gathering@ == gathered(all.take(it.index() as int)),
        {
            let ghost done = it.index() as int;
            let (arg_name, arg) = pair;
            proof {
                assert(all.take(done + 1).drop_last() =~= all.take(done));
                assert(all.take(done + 1).last() == all[done]);
            }
            let _ = gathering.insert(arg_name, arg);
        }
        proof {
            assert(all.take(all.len() as int) =~= all);
        }
        let entry = RenderGraphEntry { graph, args: gathering };
        let _ = self.entries.insert(name.to_owned(), entry);
        assert(inserted(old(self).entries(), name@, entry) == self.entries());
    }

    /// The number of render graphs
    pub fn len(&self) -> (len: usize)
        ensures
            len == self.entries().len(),
    {
        self.entries.len()
    }

    /// The name, the graph and the arguments at a place in the order of
    /// names
    pub fn entry(&self, at: usize) -> (entry: (&String, &RenderGraphEntry<O>))
        requires
            at < self.entries().len(),
        ensures
            entry.0@ == self.entries()[at as int].0,
            *entry.1 == self.entries()[at as int].1,
    {
        self.entries.entry(at)
    }
}

} // verus!
