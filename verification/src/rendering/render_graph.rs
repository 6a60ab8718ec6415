//! Render graphs: the targets that are rendered to and the passes that render.

use vstd::prelude::*;
use crate::ecs::EntityId;
use crate::registry::{has_name, inserted, sorted, Registry};

verus! {

/// List of pass attachments
pub struct Attachments<V> {
    /// Color attachments
    pub color: Vec<V>,
    /// Depth attachment
    pub depth: Option<V>,
}

/// Pass operation context
pub struct OperationContext<'a, L, V> {
    /// Command list to write operations into
    pub command_list: &'a mut L,
    /// List of render graph arguments
    pub args: &'a Registry<Arg>,
    /// List of current pass attachments
    pub attachments: Attachments<V>,
}

/// Enumeration of render graph execution arguments
#[derive(Clone, Copy, Debug, PartialEq, Eq, Structural)]
pub enum Arg {
    /// Argument is an [EntityId]
    EntityId(EntityId),
}

/// Trait of render graph pass operation
pub trait Operation<L, V> {
    /// The operation can be invoked in this context. An operation that does
    /// not say otherwise can be invoked in any.
    open spec fn accepts(&self, context: OperationContext<'_, L, V>) -> bool {
        true
    }

    /// What an invocation in this context has done. An operation that does
    /// not say otherwise tells nothing.
    open spec fn ran(&self, context: OperationContext<'_, L, V>) -> bool {
        true
    }

    /// Invokes operation
    fn invoke<'a>(&self, context: OperationContext<'a, L, V>)
        requires
            self.accepts(context),
        ensures
            self.ran(context),
    ;
}

/// Stateful implementation of [Operation]
pub struct StatefulOperation<S, F> {
    state: S,
    delegate: F,
}

impl<S, F> StatefulOperation<S, F> {
    /// The state that the operation hands to its function.
    pub closed spec fn state(&self) -> S {
        self.state
    }

    /// The function that the operation calls.
    pub closed spec fn delegate(&self) -> F {
        self.delegate
    }

    /// Creates new instance of [StatefulOperation]
    pub fn new(state: S, delegate: F) -> (operation: StatefulOperation<S, F>)
        ensures
            operation.state() == state,
            operation.delegate() == delegate,
    {
        StatefulOperation { state, delegate }
    }
}

impl<L, V, S, F: for <'a, 'b>Fn(&'b S, OperationContext<'a, L, V>)> Operation<
    L,
    V,
> for StatefulOperation<S, F> {
    open spec fn accepts(&self, context: OperationContext<'_, L, V>) -> bool {
        call_requires(self.delegate(), (&self.state(), context))
    }

    open spec fn ran(&self, context: OperationContext<'_, L, V>) -> bool {
        call_ensures(self.delegate(), (&self.state(), context), ())
    }

    fn invoke<'a>(&self, context: OperationContext<'a, L, V>) {
        (self.delegate)(&self.state, context)
    }
}

/// Enumeration of render graph target image
#[derive(Clone, Copy, Debug, PartialEq, Eq, Structural)]
pub enum Target {
    /// Target image is an image of the swapchain
    Swapchain,
}

/// Enumeration of attachment clear value
#[derive(Clone, Copy, Debug, PartialEq, Eq)]
pub enum ClearValue {
    /// Clear value is a RGBA color: the bit patterns of its four
    /// single-precision channels
    Float([u32; 4]),
}

/// Enumeration of attachment loading operations
#[derive(Clone, Copy, Debug, PartialEq, Eq)]
pub enum AttachmentLoadOp {
    /// Do nothing with attachment
    Ignore,
    /// Clear target image
    Clear(ClearValue),
    /// Load target image
    Load,
}

impl AttachmentLoadOp {
    /// The value that the target is cleared to, where it is cleared
    pub fn clear_value(&self) -> (value: Option<ClearValue>)
        ensures
            value == match *self {
                AttachmentLoadOp::Clear(value) => Some(value),
                _ => None::<ClearValue>,
            },
    {
        match self {
            AttachmentLoadOp::Clear(value) => Some(*value),
            _ => None,
        }
    }
}

/// Enumeration of attachment store operations
#[derive(Clone, Copy, Debug, PartialEq, Eq, Structural)]
pub enum AttachmentStoreOp {
    /// Do nothing with attachment
    Ignore,
    /// Store data in target image
    Store,
}

/// Attachment of target image
#[derive(Debug)]
pub struct Attachment {
    /// Name of target
    pub target: String,
    /// Operation on attachment load
    pub load_op: AttachmentLoadOp,
    /// Operation on attachment store
    pub store_op: AttachmentStoreOp,
}

/// Rendering pass
pub struct Pass<O> {
    /// List of color attachments
    pub color: Vec<Attachment>,
    /// Optional depth attachment
    pub depth: Option<Attachment>,
    /// An operation to execute
    pub operation: O,
}

impl<O> Pass<O> {
    /// Every attachment of the pass names one of the targets.
    pub open spec fn resolves(&self, targets: Seq<(Seq<char>, Target)>) -> bool {
        &&& forall|at: int|
            0 <= at < self.color@.len() ==> has_name(targets, (#[trigger] self.color@[at]).target@)
        &&& self.depth matches Some(depth) ==> has_name(targets, depth.target@)
    }
}

/// [Pass] builder
pub struct PassBuilder<O> {
    color: Vec<Attachment>,
    depth: Option<Attachment>,
    operation: Option<O>,
}

impl<O> PassBuilder<O> {
    /// The color attachments so far.
    pub closed spec fn color(&self) -> Seq<Attachment> {
        self.color@
    }

    /// The depth attachment so far.
    pub closed spec fn depth(&self) -> Option<Attachment> {
        self.depth
    }

    /// The operation so far.
    pub closed spec fn operation(&self) -> Option<O> {
        self.operation
    }

    /// Creates a builder of a pass without attachments and operation
    pub fn new() -> (builder: PassBuilder<O>)
        ensures
            builder.color().len() == 0,
            builder.depth() is None,
            builder.operation() is None,
    {
        PassBuilder { color: Vec::new(), depth: None, operation: None }
    }

    /// Adds color attachment to [Pass]
    pub fn add_color(self, attachment: Attachment) -> (builder: PassBuilder<O>)
        ensures
            builder.color() == self.color().push(attachment),
            builder.depth() == self.depth(),
            builder.operation() == self.operation(),
    {
        let mut builder = self;
        builder.color.push(attachment);
        builder
    }

    /// Sets depth attachment to [Pass]
    pub fn set_depth(self, attachment: Attachment) -> (builder: PassBuilder<O>)
        ensures
            builder.color() == self.color(),
            builder.depth() == Some(attachment),
            builder.operation() == self.operation(),
    {
        let mut builder = self;
        builder.depth = Some(attachment);
        builder
    }

    /// Sets operation to [Pass]
    pub fn set_operation(self, operation: O) -> (builder: PassBuilder<O>)
        ensures
            builder.color() == self.color(),
            builder.depth() == self.depth(),
            builder.operation() == Some(operation),
    {
        let mut builder = self;
        builder.operation = Some(operation);
        builder
    }

    /// Builds [Pass], if an operation was set
    pub fn build(self) -> (pass: Option<Pass<O>>)
        ensures
            match self.operation() {
                Some(operation) => pass matches Some(pass) && pass.color@ == self.color()
                    && pass.depth == self.depth() && pass.operation == operation,
                None => pass is None,
            },
    {
        match self.operation {
            Some(operation) => Some(Pass { color: self.color, depth: self.depth, operation }),
            None => None,
        }
    }
}

impl<O> Default for PassBuilder<O> {
    fn default() -> (builder: Self)
        ensures
            builder.color().len() == 0,
            builder.depth() is None,
            builder.operation() is None,
    {
        PassBuilder::new()
    }
}

/// Render graph
pub struct RenderGraph<O> {
    /// List of target images
    pub targets: Registry<Target>,
    /// List of rendering passes
    pub passes: Vec<Pass<O>>,
}

impl<O> RenderGraph<O> {
    /// The targets are sorted by name.
    pub open spec fn wf(&self) -> bool {
        sorted(self.targets@)
    }

    /// Every attachment of every pass names a target of the graph.
    pub open spec fn resolves(&self) -> bool {
        forall|at: int|
            0 <= at < self.passes@.len() ==> (#[trigger] self.passes@[at]).resolves(self.targets@)
    }

    /// Whether every attachment of every pass names a target of the graph
    pub fn is_resolved(&self) -> (resolved: bool)
        requires
            self.wf(),
        ensures
            resolved == self.resolves(),
    {
        let mut at: usize = 0;
        while at < self.passes.len()
            invariant
                at <= self.passes@.len(),
                self.wf(),
                forall|k: int| 0 <= k < at ==> (#[trigger] self.passes@[k]).resolves(self.targets@),
            decreases self.passes@.len() - at,
        {
            let pass = &self.passes[at];
            let mut c: usize = 0;
            while c < pass.color.len()
                invariant
                    c <= pass.color@.len(),
                    at < self.passes@.len(),
                    *pass == self.passes@[at as int],
                    self.wf(),
                    forall|k: int|
                        0 <= k < c ==> has_name(self.targets@, (#[trigger] pass.color@[k]).target@),
                decreases pass.color@.len() - c,
            {
                proof {
                    crate::registry::lemma_has_name(self.targets@, pass.color@[c as int].target@);
                }
                if self.targets.get(pass.color[c].target.as_str()).is_none() {
                    proof {
                        assert(!has_name(self.targets@, pass.color@[c as int].target@));
                        assert(!self.passes@[at as int].resolves(self.targets@));
                    }
                    return false;
                }
                c += 1;
            }
            match &pass.depth {
                Some(depth) => {
                    proof {
                        crate::registry::lemma_has_name(self.targets@, depth.target@);
                    }
                    if self.targets.get(depth.target.as_str()).is_none() {
                        proof {
                            assert(!self.passes@[at as int].resolves(self.targets@));
                        }
                        return false;
                    }
                },
                None => {},
            }
            at += 1;
        }
        true
    }
}

/// [RenderGraph] builder
pub struct RenderGraphBuilder<O> {
    targets: Registry<Target>,
    passes: Vec<Pass<O>>,
}

impl<O> RenderGraphBuilder<O> {
    /// The targets so far, in the order of their names.
    pub closed spec fn targets(&self) -> Seq<(Seq<char>, Target)> {
        self.targets@
    }

    /// The passes so far, in the order in which they were added.
    pub closed spec fn passes(&self) -> Seq<Pass<O>> {
        self.passes@
    }

    /// The targets are sorted by name.
    pub open spec fn wf(&self) -> bool {
        sorted(self.targets())
    }

    /// Creates a builder of a graph without targets and passes
    pub fn new() -> (builder: RenderGraphBuilder<O>)
        ensures
            builder.wf(),
            builder.targets().len() == 0,
            builder.passes().len() == 0,
    {
        RenderGraphBuilder { targets: Registry::new(), passes: Vec::new() }
    }

    /// Adds target to [RenderGraph]; one of the same name is replaced
    pub fn add_target(self, name: &str, target: Target) -> (builder: RenderGraphBuilder<O>)
        requires
            self.wf(),
        ensures
            builder.wf(),
            builder.targets() == inserted(self.targets(), name@, target),
            builder.passes() == self.passes(),
    {
        let mut builder = self;
        let _ = builder.targets.insert(name.to_owned(), target);
        builder
    }

    /// Adds [Pass] to [RenderGraph]: the pass that `builder` makes of an empty
    /// pass builder
    pub fn add_pass<B: FnOnce(PassBuilder<O>) -> PassBuilder<O>>(self, builder: B) -> (graph:
        RenderGraphBuilder<O>)
        requires
            self.wf(),
            forall|empty: PassBuilder<O>| call_requires(builder, (empty,)),
            forall|empty: PassBuilder<O>, built: PassBuilder<O>|
                call_ensures(builder, (empty,), built) ==> built.operation() is Some,
        ensures
            graph.wf(),
            graph.targets() == self.targets(),
            graph.passes().len() == self.passes().len() + 1,
            graph.passes().drop_last() == self.passes(),
            exists|empty: PassBuilder<O>, built: PassBuilder<O>|
                {
                    &&& empty.color().len() == 0 && empty.depth() is None && empty.operation()
                        is None
                    &&& #[trigger] call_ensures(builder, (empty,), built)
                    &&& graph.passes().last().color@ == built.color()
                    &&& graph.passes().last().depth == built.depth()
                    &&& Some(graph.passes().last().operation) == built.operation()
                },
    {
        let mut graph = self;
        let empty: PassBuilder<O> = PassBuilder::new();
        let built = builder(empty);
        let ghost shown = built;
        match built.build() {
            Some(pass) => {
                graph.passes.push(pass);
                assert(graph.passes@.drop_last() =~= self.passes@);
                assert(call_ensures(builder, (empty,), shown));
            },
            None => {
                assert(false);
            },
        }
        graph
    }

    /// Builds [RenderGraph]
    pub fn build(self) -> (graph: RenderGraph<O>)
        requires
            self.wf(),
        ensures
            graph.wf(),
            graph.targets@ == self.targets(),
            graph.passes@ == self.passes(),
    {
        RenderGraph { targets: self.targets, passes: self.passes }
    }
}

impl<O> Default for RenderGraphBuilder<O> {
    fn default() -> (builder: Self)
        ensures
            builder.wf(),
            builder.targets().len() == 0,
            builder.passes().len() == 0,
    {
        RenderGraphBuilder::new()
    }
}

} // verus!
